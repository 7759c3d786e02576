use vstd::prelude::*;
use crate::archive::{is_bz2_name, Error, ErrorView, FileEntry};
use vstd::utf8::{decode_utf8, valid_utf8};

verus! {

/// What the bzip2 decoder yields for a compressed byte sequence: the
/// decompressed bytes, or nothing when the input is not a well-formed
/// multi-stream bzip2 payload.
pub uninterp spec fn bunzip_of(data: Seq<u8>) -> Option<Seq<u8>>;

/// Relies on bzip2's `MultiBzDecoder` read to completion: over an
/// in-memory buffer the outcome is a function of the bytes alone, and it
/// fails exactly on ill-formed input.
#[verifier::external_body]
pub(crate) fn bunzip(data: &[u8]) -> (r: Result<Vec<u8>, String>)
    ensures
        match r {
            Ok(out) => bunzip_of(data@) == Some(out@),
            Err(_) => bunzip_of(data@) is None,
        },
{
    let mut out = Vec::new();
    match std::io::Read::read_to_end(&mut bzip2::read::MultiBzDecoder::new(data), &mut out) {
        Ok(_) => Ok(out),
        Err(e) => Err(format!("{}", e)),
    }
}

/// Relies on `String::from_utf8`: it succeeds exactly on valid UTF-8 and
/// yields its decoding, as modelled by vstd's UTF-8 specification.
#[verifier::external_body]
pub(crate) fn utf8_to_string(data: &[u8]) -> (r: Option<String>)
    ensures
        match r {
            Some(s) => valid_utf8(data@) && s@ == decode_utf8(data@),
            None => !valid_utf8(data@),
        },
{
    std::str::from_utf8(data).ok().map(|s| s.to_string())
}

/// The text of a member, from its raw bytes: bzip2-decompressed first
/// when its path names that layer, then read as UTF-8; nothing when
/// either layer fails.
pub open spec fn spec_decode(path: Seq<char>, raw: Seq<u8>) -> Option<Seq<char>> {
    if is_bz2_name(path) {
        match bunzip_of(raw) {
            Some(b) => if valid_utf8(b) {
                Some(decode_utf8(b))
            } else {
                None
            },
            None => None,
        }
    } else {
        if valid_utf8(raw) {
            Some(decode_utf8(raw))
        } else {
            None
        }
    }
}

/// A member whose name announces bzip2 decodes to the decompression of
/// its bytes read as text; any other member decodes to its bytes read as
/// text directly, with no second decompression layer.
pub proof fn lemma_decode_layers(path: Seq<char>, raw: Seq<u8>)
    ensures
        is_bz2_name(path) ==> spec_decode(path, raw) == (match bunzip_of(raw) {
            Some(b) => if valid_utf8(b) {
                Some(decode_utf8(b))
            } else {
                None
            },
            None => None,
        }),
        !is_bz2_name(path) ==> spec_decode(path, raw) == (if valid_utf8(raw) {
            Some(decode_utf8(raw))
        } else {
            None
        }),
{
}

/// A copy of an entry record with the same value.
pub fn copy_entry(e: &FileEntry) -> (r: FileEntry)
    ensures
        r@ == e@,
{
    FileEntry { path: e.path.clone(), size: e.size, crc32: e.crc32 }
}

/// Reads one member's bytes as text, layering the bzip2 decoder exactly
/// when the entry's path ends in `.bz2`.  A failure reports the entry it
/// belongs to and leaves sibling members untouched.
pub fn decode_entry(entry: &FileEntry, raw: &[u8]) -> (r: Result<String, Error>)
    ensures
        match r {
            Ok(s) => spec_decode(entry@.path, raw@) == Some(s@),
            Err(e) => spec_decode(entry@.path, raw@) is None && (e@ matches
                ErrorView::DecodingIo(fe, _) && fe == entry@),
        },
{
    if entry.is_bzip2() {
        let data = match bunzip(raw) {
            Ok(d) => d,
            Err(msg) => {
                return Err(Error::DecodingIo(copy_entry(entry), msg));
            },
        };
        return match utf8_to_string(data.as_slice()) {
            Some(s) => Ok(s),
            None => Err(
                Error::DecodingIo(
                    copy_entry(entry),
                    "stream did not contain valid UTF-8".to_owned(),
                ),
            ),
        };
    }
    match utf8_to_string(raw) {
        Some(s) => Ok(s),
        None => Err(
            Error::DecodingIo(copy_entry(entry), "stream did not contain valid UTF-8".to_owned()),
        ),
    }
}

} // verus!
