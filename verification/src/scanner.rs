//! Per-file classification: binary detection, truncation of oversized text,
//! and construction of the per-file scan records.

use crate::numfmt::spec_mb;
use crate::numfmt::mb_string;
use vstd::prelude::*;

verus! {

/// Characters of decoded text kept before a file is cut off.
pub const TRUNCATION_CUTOFF: usize = 10_000_000;

/// One scanned file: its slash-joined relative path, its textual content if
/// any, and whether it was classified as binary.
pub struct ScannedFile {
    pub path: String,
    pub content: Option<String>,
    pub is_binary: bool,
}

/// Holds iff some byte of `data` is NUL.
pub open spec fn contains_nul(data: Seq<u8>) -> bool {
    exists|i: int| 0 <= i < data.len() && data[i] == 0u8
}

/// A byte sequence classifies as binary exactly when it contains a NUL byte.
pub fn is_binary(data: &[u8]) -> (r: bool)
    ensures
        r == contains_nul(data@),
{
    let n: usize = data.len();
    let mut i: usize = 0;
    while i < n
        invariant
            i <= n,
            n == data@.len(),
            forall|j: int| 0 <= j < i ==> data@[j] != 0u8,
        decreases n - i,
    {
        if data[i] == 0 {
            return true;
        }
        i += 1;
    }
    false
}

/// Text longer than `max_len` characters is cut at that offset and marked;
/// anything at or below the limit is left unchanged.
pub open spec fn spec_truncate(text: Seq<char>, max_len: int) -> Seq<char> {
    if text.len() > max_len {
        text.take(max_len) + "\n[Truncated: File too large]"@
    } else {
        text
    }
}

/// Truncates `text` to at most `max_len` characters, appending a marker line
/// when anything was cut off.
pub fn truncate_text(text: String, max_len: usize) -> (r: String)
    ensures
        r@ == spec_truncate(text@, max_len as int),
{
    let n = text.as_str().unicode_len();
    if n > max_len {
        let head = text.as_str().substring_char(0, max_len);
        let mut r = String::from_str(head);
        r.append("\n[Truncated: File too large]");
        r
    } else {
        text
    }
}

/// What `String::from_utf8_lossy` decodes the given bytes to.
pub uninterp spec fn lossy_decode(data: Seq<u8>) -> Seq<char>;

/// Relies on String::from_utf8_lossy: its result is a function of the bytes
/// alone, and decoding no bytes yields the empty string.
#[verifier::external_body]
fn decode_lossy(data: &Vec<u8>) -> (r: String)
    ensures
        r@ == lossy_decode(data@),
        data@.len() == 0 ==> r@.len() == 0,
{
    String::from_utf8_lossy(data).into_owned()
}

/// The placeholder content recorded for a file whose size exceeds the
/// configured limit, both sizes in megabytes with one decimal digit.
pub open spec fn oversized_message(size: u64, limit: u64) -> Seq<char> {
    "[File size > "@ + spec_mb(size) + "MB (max: "@ + spec_mb(limit) + "MB)]"@
}

/// The record for a file too large to read: not binary, with a placeholder
/// naming the file's size and the configured limit.
pub fn record_oversized(path: String, size: u64, max_file_size: u64) -> (r: ScannedFile)
    requires
        size > max_file_size,
    ensures
        r.path == path,
        !r.is_binary,
        match r.content {
            Option::Some(c) => c@ == oversized_message(size, max_file_size),
            Option::None => false,
        },
{
    let mut content = String::from_str("[File size > ");
    let size_mb = mb_string(size);
    content.append(size_mb.as_str());
    content.append("MB (max: ");
    let limit_mb = mb_string(max_file_size);
    content.append(limit_mb.as_str());
    content.append("MB)]");
    ScannedFile { path, content: Some(content), is_binary: false }
}

/// The record for a file whose bytes could not be read: binary, no content.
pub fn record_unreadable(path: String) -> (r: ScannedFile)
    ensures
        r.path == path,
        r.is_binary,
        r.content is None,
{
    ScannedFile { path, content: None, is_binary: true }
}

/// The record for a file read in full: binary iff the bytes hold a NUL, and
/// otherwise carrying the decoded text truncated at the fixed cutoff.
pub fn record_from_data(path: String, data: &Vec<u8>) -> (r: ScannedFile)
    ensures
        r.path == path,
        r.is_binary == contains_nul(data@),
        r.is_binary ==> r.content is None,
        !r.is_binary ==> match r.content {
            Option::Some(c) => c@ == spec_truncate(lossy_decode(data@), TRUNCATION_CUTOFF as int),
            Option::None => false,
        },
{
    let bin = is_binary(data.as_slice());
    if bin {
        ScannedFile { path, content: None, is_binary: true }
    } else {
        let text = decode_lossy(data);
        let content = truncate_text(text, TRUNCATION_CUTOFF);
        ScannedFile { path, content: Some(content), is_binary: false }
    }
}

} // verus!
