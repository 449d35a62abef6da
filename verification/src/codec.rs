//! The level-document codec: a document is a compressed, obfuscated
//! directory of named level payloads; each payload is in turn a compressed,
//! obfuscated text listing.  Decoding reverses, per layer, the compression
//! and then the cipher; encoding re-applies the cipher and the compression to
//! the one modified level and splices it back, leaving every other level's
//! payload byte-identical.

use vstd::prelude::*;
use crate::BackendError;
use crate::obj::{TargetObject, SpecObj, view_listing, wf_listing};
use crate::text::{
    listing_bytes, parse_listing, listing_exec, parse_listing_exec, lemma_parse_listing_round,
    lemma_parse_listing_wf,
};
use crate::frame::{
    xor_bytes, xor_exec, lemma_xor_involution, SpecDir, wf_dir, dir_bytes, parse_dir, dir_find,
    dir_replace, view_dir, parse_dir_exec, dir_bytes_exec, dir_find_exec, dir_replace_exec,
    lemma_parse_dir_round, lemma_dir_replace,
};

verus! {

/// What the compressor returns for given bytes.  The result depends on the
/// input alone.
pub uninterp spec fn deflate_of(data: Seq<u8>) -> Seq<u8>;

/// What the decompressor returns for given bytes: the decompressed data, or
/// nothing when the stream is structurally invalid.
pub uninterp spec fn inflate_of(data: Seq<u8>) -> Option<Seq<u8>>;

/// Relies on flate2's `ZlibEncoder`: compression of an in-memory buffer is a
/// pure function of the bytes, and decompressing its output yields the input
/// back.
#[verifier::external_body]
fn compress(data: &Vec<u8>) -> (r: Vec<u8>)
    ensures
        r@ == deflate_of(data@),
        inflate_of(r@) == Some(data@),
{
    let mut e = flate2::write::ZlibEncoder::new(Vec::new(), flate2::Compression::new(6));
    std::io::Write::write_all(&mut e, data.as_slice()).expect("writing to a buffer cannot fail");
    e.finish().expect("compressing to a buffer cannot fail")
}

/// Relies on flate2's `ZlibDecoder`: decompression is a pure function of the
/// bytes, and fails exactly on a structurally invalid stream.
#[verifier::external_body]
fn decompress(data: &Vec<u8>) -> (r: Option<Vec<u8>>)
    ensures
        match r {
            Some(d) => inflate_of(data@) == Some(d@),
            None => inflate_of(data@) == None::<Seq<u8>>,
        },
{
    let mut dec = flate2::read::ZlibDecoder::new(data.as_slice());
    let mut out = Vec::new();
    match std::io::Read::read_to_end(&mut dec, &mut out) {
        Ok(_) => Some(out),
        Err(_) => None,
    }
}

/// The directory a document holds, when both outer layers decode.
pub open spec fn doc_dir(doc: Seq<u8>) -> Option<SpecDir> {
    match inflate_of(doc) {
        Some(d) => parse_dir(xor_bytes(d)),
        None => None,
    }
}

/// What decoding a document yields for one level name.
pub open spec fn decode_spec(doc: Seq<u8>, name: Seq<u8>) -> Result<Seq<SpecObj>, BackendError> {
    match doc_dir(doc) {
        None => Err(BackendError::InvalidFormat),
        Some(dir) => match dir_find(dir, name) {
            None => Err(BackendError::NotFound),
            Some(payload) => match inflate_of(payload) {
                None => Err(BackendError::InvalidFormat),
                Some(p) => match parse_listing(xor_bytes(p)) {
                    None => Err(BackendError::InvalidFormat),
                    Some(l) => Ok(l),
                },
            },
        },
    }
}

/// What encoding a listing into a document yields: the new document bytes,
/// `NotFound` when the level is absent, `InvalidFormat` when the document
/// does not decode or the new record does not fit the frame.
pub open spec fn encode_spec(l: Seq<SpecObj>, doc: Seq<u8>, name: Seq<u8>) -> Result<
    Seq<u8>,
    BackendError,
> {
    match doc_dir(doc) {
        None => Err(BackendError::InvalidFormat),
        Some(dir) => if dir_find(dir, name) is None {
            Err(BackendError::NotFound)
        } else {
            let payload = deflate_of(xor_bytes(listing_bytes(l)));
            let dir2 = dir_replace(dir, name, payload);
            if wf_dir(dir2) {
                Ok(deflate_of(xor_bytes(dir_bytes(dir2))))
            } else {
                Err(BackendError::InvalidFormat)
            }
        },
    }
}

/// Decodes one named level out of a document.  Fails with `InvalidFormat`
/// exactly when a compressed layer or the text listing is malformed, and
/// with `NotFound` exactly when no level carries `name`.
pub fn decode_level(doc: &Vec<u8>, name: &Vec<u8>) -> (r: Result<Vec<TargetObject>, BackendError>)
    ensures
        match r {
            Ok(l) => decode_spec(doc@, name@) == Ok::<Seq<SpecObj>, BackendError>(view_listing(l@))
                && wf_listing(view_listing(l@)),
            Err(e) => decode_spec(doc@, name@) == Err::<Seq<SpecObj>, BackendError>(e),
        },
{
    let d1 = match decompress(doc) {
        Some(d) => d,
        None => {
            return Err(BackendError::InvalidFormat);
        },
    };
    let d2 = xor_exec(&d1);
    let dir = match parse_dir_exec(d2.as_slice()) {
        Some(dir) => dir,
        None => {
            return Err(BackendError::InvalidFormat);
        },
    };
    let payload = match dir_find_exec(dir.as_slice(), name) {
        Some(p) => p,
        None => {
            return Err(BackendError::NotFound);
        },
    };
    let p1 = match decompress(&payload) {
        Some(p) => p,
        None => {
            return Err(BackendError::InvalidFormat);
        },
    };
    let p2 = xor_exec(&p1);
    match parse_listing_exec(p2.as_slice()) {
        Some(l) => {
            proof {
                lemma_parse_listing_wf(p2@);
            }
            Ok(l)
        },
        None => Err(BackendError::InvalidFormat),
    }
}

/// Re-encodes one level into an existing document.  On success the result
/// decodes back to exactly the listing that was written, and every other
/// level's record in the directory is byte-identical to what it was.
pub fn encode_level(listing: &Vec<TargetObject>, doc: &Vec<u8>, name: &Vec<u8>) -> (r: Result<
    Vec<u8>,
    BackendError,
>)
    requires
        wf_listing(view_listing(listing@)),
    ensures
        match r {
            Ok(out) => {
                &&& encode_spec(view_listing(listing@), doc@, name@) == Ok::<Seq<u8>, BackendError>(
                    out@,
                )
                &&& decode_spec(out@, name@) == Ok::<Seq<SpecObj>, BackendError>(
                    view_listing(listing@),
                )
                &&& doc_dir(doc@) is Some
                &&& doc_dir(out@) is Some
                &&& {
                    let d0 = doc_dir(doc@)->Some_0;
                    let d1 = doc_dir(out@)->Some_0;
                    &&& d1.len() == d0.len()
                    &&& forall|i: int| 0 <= i < d0.len() ==> (#[trigger] d1[i]).0 == d0[i].0
                    &&& forall|i: int|
                        0 <= i < d0.len() && (#[trigger] d0[i]).0 != name@ ==> d1[i] == d0[i]
                }
            },
            Err(e) => encode_spec(view_listing(listing@), doc@, name@) == Err::<
                Seq<u8>,
                BackendError,
            >(e),
        },
{
    let d1 = match decompress(doc) {
        Some(d) => d,
        None => {
            return Err(BackendError::InvalidFormat);
        },
    };
    let d2 = xor_exec(&d1);
    let dir = match parse_dir_exec(d2.as_slice()) {
        Some(dir) => dir,
        None => {
            return Err(BackendError::InvalidFormat);
        },
    };
    match dir_find_exec(dir.as_slice(), name) {
        Some(_) => {},
        None => {
            return Err(BackendError::NotFound);
        },
    }
    let inner = listing_exec(listing.as_slice());
    let inner_x = xor_exec(&inner);
    let payload = compress(&inner_x);
    let dir2 = dir_replace_exec(dir.as_slice(), name, &payload);
    let dir2_bytes = match dir_bytes_exec(dir2.as_slice()) {
        Some(b) => b,
        None => {
            return Err(BackendError::InvalidFormat);
        },
    };
    let outer_x = xor_exec(&dir2_bytes);
    let out = compress(&outer_x);
    proof {
        let vl = view_listing(listing@);
        let vdir = view_dir(dir@);
        let vdir2 = dir_replace(vdir, name@, payload@);
        assert(payload@ == deflate_of(xor_bytes(listing_bytes(vl)))) by {
            assert(inner_x@ =~= xor_bytes(listing_bytes(vl)));
        }
        assert(out@ == deflate_of(xor_bytes(dir_bytes(vdir2)))) by {
            assert(outer_x@ =~= xor_bytes(dir_bytes(vdir2)));
        }
        // the new document decodes to the listing that was written
        lemma_xor_involution(dir_bytes(vdir2));
        assert(xor_bytes(outer_x@) =~= dir_bytes(vdir2));
        lemma_parse_dir_round(vdir2);
        lemma_dir_replace(vdir, name@, payload@);
        lemma_xor_involution(listing_bytes(vl));
        assert(xor_bytes(inner_x@) =~= listing_bytes(vl));
        lemma_parse_listing_round(vl);
    }
    Ok(out)
}

/// Law: a document whose stored payload for the requested level does not
/// decompress — a truncated or corrupted stream — decodes to
/// `InvalidFormat`, whatever else the document holds.  Decoding takes the
/// document by reference and cannot write anywhere.
pub proof fn lemma_truncated_payload_invalid(doc: Seq<u8>, name: Seq<u8>)
    requires
        doc_dir(doc) is Some,
        dir_find(doc_dir(doc)->Some_0, name) is Some,
        inflate_of(dir_find(doc_dir(doc)->Some_0, name)->Some_0) is None,
    ensures
        decode_spec(doc, name) == Err::<Seq<SpecObj>, BackendError>(BackendError::InvalidFormat),
{
}

/// Packs one listing into a level payload as the document stores it.
pub fn pack_level(listing: &Vec<TargetObject>) -> (r: Vec<u8>)
    ensures
        r@ == deflate_of(xor_bytes(listing_bytes(view_listing(listing@)))),
        inflate_of(r@) == Some(xor_bytes(listing_bytes(view_listing(listing@)))),
{
    let inner = listing_exec(listing.as_slice());
    let inner_x = xor_exec(&inner);
    let r = compress(&inner_x);
    proof {
        assert(inner_x@ =~= xor_bytes(listing_bytes(view_listing(listing@))));
    }
    r
}

/// Packs a directory of named level payloads into a whole document.  Fails
/// with `InvalidFormat` when a record does not fit the frame.
pub fn pack_document(dir: &Vec<(Vec<u8>, Vec<u8>)>) -> (r: Result<Vec<u8>, BackendError>)
    ensures
        match r {
            Ok(out) => doc_dir(out@) == Some(view_dir(dir@)),
            Err(e) => e == BackendError::InvalidFormat && !wf_dir(view_dir(dir@)),
        },
{
    let bytes = match dir_bytes_exec(dir.as_slice()) {
        Some(b) => b,
        None => {
            return Err(BackendError::InvalidFormat);
        },
    };
    let x = xor_exec(&bytes);
    let out = compress(&x);
    proof {
        lemma_xor_involution(dir_bytes(view_dir(dir@)));
        assert(x@ =~= xor_bytes(dir_bytes(view_dir(dir@))));
        assert(xor_bytes(x@) =~= dir_bytes(view_dir(dir@)));
        lemma_parse_dir_round(view_dir(dir@));
    }
    Ok(out)
}

} // verus!
