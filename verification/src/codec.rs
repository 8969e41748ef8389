//! Encoding and archiving: base64 payloads and the zip bundle.
//!
//! The base64 and zip encodings themselves come from outside crates; their
//! results are named by uninterpreted spec functions and tied together by
//! the round-trip facts those crates document.
use vstd::prelude::*;
use crate::text::{find_byte, byte_free, lemma_find_byte};
use base64::Engine;

verus! {

/// The standard base64 encoding (with padding) of `data`, as ASCII bytes.
pub uninterp spec fn b64_encode_of(data: Seq<u8>) -> Seq<u8>;

/// The standard base64 decoding of `text`: the decoded bytes, or nothing
/// when `text` is not a valid padded base64 string.
pub uninterp spec fn b64_decode_of(text: Seq<u8>) -> Option<Seq<u8>>;

/// Relies on base64's standard engine: encoding yields the padded base64
/// text of `data`, decoding that text yields `data` back, and the standard
/// alphabet (letters, digits, `+`, `/` and the `=` pad) holds no comma.
#[verifier::external_body]
pub fn b64_encode(data: &[u8]) -> (r: Vec<u8>)
    ensures
        r@ == b64_encode_of(data@),
        b64_decode_of(r@) == Option::Some(data@),
        byte_free(r@, 44),
{
    base64::engine::general_purpose::STANDARD.encode(data).into_bytes()
}

/// Relies on base64's standard engine: decoding succeeds exactly on valid
/// padded base64 text and returns its decoded bytes.
#[verifier::external_body]
pub fn b64_decode(text: &[u8]) -> (r: Option<Vec<u8>>)
    ensures
        match r {
            Option::Some(v) => b64_decode_of(text@) == Option::Some(v@),
            Option::None => b64_decode_of(text@) is None,
        },
{
    match base64::engine::general_purpose::STANDARD.decode(text) {
        Ok(v) => Some(v),
        Err(_) => None,
    }
}

/// An image payload with any `data:...,` header removed: everything after
/// the first comma, or the whole payload when there is none.
pub open spec fn strip_data_header(payload: Seq<u8>) -> Seq<u8> {
    match find_byte(payload, 44) {
        Option::Some(i) => payload.skip(i + 1),
        Option::None => payload,
    }
}

/// The bytes an image payload decodes to: its base64 text is what follows
/// a `data:...,` header, when one is present.
pub open spec fn image_bytes_of(payload: Seq<u8>) -> Option<Seq<u8>> {
    b64_decode_of(strip_data_header(payload))
}

/// A payload without a comma carries no `data:...,` header: nothing is
/// stripped, and it decodes as plain base64 text.  In particular a payload
/// that is the standard encoding of some bytes decodes back to them.
pub proof fn lemma_strip_header_comma_free(payload: Seq<u8>)
    requires
        byte_free(payload, 44),
    ensures
        strip_data_header(payload) == payload,
        image_bytes_of(payload) == b64_decode_of(payload),
{
    lemma_find_byte(payload, 44);
    if find_byte(payload, 44) is Some {
        let i = find_byte(payload, 44)->Some_0;
        assert(payload[i] == 44);
        assert(false);
    }
}

/// Decodes an image payload, stripping a leading `data:...,` header before
/// base64-decoding; nothing when the base64 text is malformed.
pub fn decode_image_base64(payload: &[u8]) -> (r: Option<Vec<u8>>)
    ensures
        match r {
            Option::Some(v) => image_bytes_of(payload@) == Option::Some(v@),
            Option::None => image_bytes_of(payload@) is None,
        },
{
    let n: usize = payload.len();
    match crate::text::find_byte_exec(payload, 44) {
        Some(i) => {
            let raw = &payload[i + 1..n];
            proof {
                assert(raw@ =~= strip_data_header(payload@));
            }
            b64_decode(raw)
        },
        None => b64_decode(payload),
    }
}

/// The entries of a zip archive: for each entry in order, its name and its
/// uncompressed contents; nothing when the bytes are not a well-formed
/// archive.
pub uninterp spec fn zip_entries_of(bytes: Seq<u8>) -> Option<Seq<(Seq<u8>, Seq<u8>)>>;

/// Whether writing these entries, each a name and its contents, as a
/// deflate zip archive in memory succeeds.
pub uninterp spec fn zip_write_ok(entries: Seq<(Seq<u8>, Seq<u8>)>) -> bool;

/// A valid UTF-8 byte sequence: the encoding of some character sequence.
pub open spec fn is_utf8(bytes: Seq<u8>) -> bool {
    exists|cs: Seq<char>| vstd::utf8::encode_utf8(cs) == bytes
}

/// Entries the archive writer is sure to take: names pairwise distinct,
/// valid UTF-8 and within the format's name-length field, and contents
/// comfortably below the plain (non-zip64) size bound, so that even a
/// worst-case deflate expansion stays under it.
pub open spec fn archive_writable(entries: Seq<(Seq<u8>, Seq<u8>)>) -> bool {
    &&& (forall|i: int, j: int|
        0 <= i < j < entries.len() ==> (#[trigger] entries[i]).0 != (#[trigger] entries[j]).0)
    &&& (forall|i: int|
        0 <= i < entries.len() ==> is_utf8((#[trigger] entries[i]).0) && entries[i].0.len()
            <= 65535 && entries[i].1.len() < 0xff000000)
}

/// Relies on zip::ZipWriter with deflate compression, writing to an
/// in-memory cursor, which makes success a function of the entries alone:
/// a finished archive is one that zip::ZipArchive reads back as exactly
/// the entries written, in order.  The writer fails on a duplicate or
/// non-UTF-8 name, a name over the format's 16-bit length field, or entry
/// data at the zip64 threshold; distinct, valid, short enough entries are
/// written without error.
#[verifier::external_body]
pub fn zip_archive_bytes(names: &Vec<Vec<u8>>, contents: &Vec<Vec<u8>>) -> (r: Option<Vec<u8>>)
    requires
        names@.len() == contents@.len(),
    ensures
        (r is Some <==> zip_write_ok(Seq::new(names@.len(), |i: int| (names@[i]@, contents@[i]@)))),
        (r matches Option::Some(v) ==> zip_entries_of(v@) == Option::Some(
            Seq::new(names@.len(), |i: int| (names@[i]@, contents@[i]@)),
        )),
        archive_writable(Seq::new(names@.len(), |i: int| (names@[i]@, contents@[i]@))) ==> r
            is Some,
{
    let mut w = zip::ZipWriter::new(std::io::Cursor::new(Vec::new()));
    let opts = zip::write::SimpleFileOptions::default().compression_method(
        zip::CompressionMethod::Deflated,
    );
    for i in 0..names.len() {
        let name = String::from_utf8(names[i].clone()).ok()?;
        w.start_file(name, opts).ok()?;
        std::io::Write::write_all(&mut w, &contents[i]).ok()?;
    }
    Some(w.finish().ok()?.into_inner())
}

} // verus!
