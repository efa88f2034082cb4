//! What is inside an attachment's bytes: a wrapped EMF picture, a gzip
//! stream, a zip archive holding an e-mail, or e-mail text itself.

use vstd::prelude::*;
use vstd::utf8::{decode_utf8, valid_utf8};
use crate::text::{chars_of, contains_chars, contains_seq, ends_with, has_suffix, lower_text, to_lowercase};

verus! {

/// Upper bound on what is decompressed into memory (50 MiB); larger
/// content is streamed to disk instead.
pub const MAX_EML_BYTES: u64 = 50 * 1024 * 1024;

/// The bytes of an optional byte vector.
pub open spec fn opt_bytes(o: Option<Vec<u8>>) -> Option<Seq<u8>> {
    match o {
        Some(v) => Some(v@),
        None => None,
    }
}

/// `d` starts with the 32-byte wrapper that Outlook puts around an EMF
/// picture: after it come the signature `EMF\0` and a little-endian record
/// type equal to 1.
pub open spec fn is_wrapped_emf(d: Seq<u8>) -> bool {
    &&& d.len() >= 40
    &&& d[32] == 0x45u8 && d[33] == 0x4Du8 && d[34] == 0x46u8 && d[35] == 0u8
    &&& d[36] + 256 * d[37] + 65536 * d[38] + 16777216 * d[39] == 1
}

/// The EMF stream inside a wrapped EMF picture: everything after the
/// 32-byte wrapper.
pub fn strip_emf_wrapper(data: &[u8]) -> (r: Option<&[u8]>)
    ensures
        is_wrapped_emf(data@) <==> r is Some,
        r matches Some(s) ==> s@ == data@.skip(32),
{
    if data.len() < 40 {
        return None;
    }
    if data[32] != 0x45u8 || data[33] != 0x4Du8 || data[34] != 0x46u8 || data[35] != 0u8 {
        return None;
    }
    if data[36] != 1u8 || data[37] != 0u8 || data[38] != 0u8 || data[39] != 0u8 {
        return None;
    }
    let s = vstd::slice::slice_subrange(data, 32, data.len());
    assert(s@ =~= data@.skip(32));
    Some(s)
}

/// The bytes start with the gzip magic number `1f 8b`.
pub open spec fn has_gzip_magic(b: Seq<u8>) -> bool {
    b.len() >= 2 && b[0] == 0x1fu8 && b[1] == 0x8bu8
}

/// Whether the bytes start with the gzip magic number `1f 8b`.
pub fn is_gzip_magic(bytes: &[u8]) -> (r: bool)
    ensures
        r == has_gzip_magic(bytes@),
{
    bytes.len() >= 2 && bytes[0] == 0x1fu8 && bytes[1] == 0x8bu8
}

/// `std::str::from_utf8`: the text of the bytes exactly when they are valid
/// UTF-8, as std documents it.
#[verifier::external_body]
pub(crate) fn utf8_str(bytes: &[u8]) -> (r: Option<&str>)
    ensures
        r is Some <==> valid_utf8(bytes@),
        r matches Some(s) ==> s@ == decode_utf8(bytes@),
{
    std::str::from_utf8(bytes).ok()
}

/// The text of the first 512 bytes of `data` (empty unless they are valid
/// UTF-8) mentions `From:`, `Date:` or `MIME-Version:`.
pub open spec fn looks_like_mail(data: Seq<u8>) -> bool {
    let p = data.take(if data.len() < 512 { data.len() as int } else { 512 });
    let t = if valid_utf8(p) {
        decode_utf8(p)
    } else {
        Seq::empty()
    };
    contains_seq(t, "From:"@) || contains_seq(t, "Date:"@) || contains_seq(t, "MIME-Version:"@)
}

/// Whether the bytes look like an RFC 5322 e-mail message.
pub fn looks_like_eml(data: &[u8]) -> (r: bool)
    ensures
        r == looks_like_mail(data@),
{
    let n = if data.len() < 512 {
        data.len()
    } else {
        512
    };
    let prefix = vstd::slice::slice_subrange(data, 0, n);
    assert(prefix@ =~= data@.take(n as int));
    let text = match utf8_str(prefix) {
        Some(s) => s,
        None => "",
    };
    proof {
        reveal_strlit("");
    }
    assert(text@ == (if valid_utf8(prefix@) { decode_utf8(prefix@) } else { Seq::<char>::empty() }));
    let cs = chars_of(text);
    let from = chars_of("From:");
    let date = chars_of("Date:");
    let mime = chars_of("MIME-Version:");
    contains_chars(&cs, &from) || contains_chars(&cs, &date) || contains_chars(&cs, &mime)
}

} // verus!

verus! {

/// What the first read of a `flate2` multi-member gzip decoder over `data`
/// into a buffer of `max` bytes yields, when it succeeds.
pub uninterp spec fn gzip_first_read(data: Seq<u8>, max: usize) -> Option<Seq<u8>>;

/// One `Read::read` of `flate2::read::MultiGzDecoder` over `data` into a
/// buffer of `max` bytes: the bytes it filled, or `None` on an error.  The
/// result is named; that a read fills at most the buffer is std's `Read`
/// contract.
#[verifier::external_body]
fn gzip_read_once(data: &[u8], max: usize) -> (r: Option<Vec<u8>>)
    ensures
        opt_bytes(r) == gzip_first_read(data@, max),
        r matches Some(v) ==> v@.len() <= max,
{
    let mut buf = vec![0u8; max];
    let n = std::io::Read::read(&mut flate2::read::MultiGzDecoder::new(data), &mut buf).ok()?;
    buf.truncate(n);
    Some(buf)
}

/// What reading a `flate2` multi-member gzip decoder over `data` to the end,
/// through `Read::take(limit)`, yields when it succeeds.
pub uninterp spec fn gzip_bounded(data: Seq<u8>, limit: u64) -> Option<Seq<u8>>;

/// `flate2::read::MultiGzDecoder` over `data`, limited by `Read::take` to
/// `limit` bytes and read with `read_to_end`: the bytes read, or `None` on
/// an error.  The result is named; that it holds at most `limit` bytes is
/// std's `Take` contract.
#[verifier::external_body]
fn gunzip_bounded(data: &[u8], limit: u64) -> (r: Option<Vec<u8>>)
    ensures
        opt_bytes(r) == gzip_bounded(data@, limit),
        r matches Some(v) ==> v@.len() <= limit,
{
    let mut out = Vec::new();
    let dec = flate2::read::MultiGzDecoder::new(data);
    std::io::Read::read_to_end(&mut std::io::Read::take(dec, limit), &mut out).ok()?;
    Some(out)
}

/// The start of a gzip stream's content: what one read of up to 512 bytes
/// gives, unless it gives nothing.
pub open spec fn gzip_prefix_of(bytes: Seq<u8>) -> Option<Seq<u8>> {
    match gzip_first_read(bytes, 512) {
        Some(v) => if v.len() == 0 {
            None
        } else {
            Some(v)
        },
        None => None,
    }
}

/// The whole content of a gzip stream when it is not empty and at most
/// [`MAX_EML_BYTES`] long.
pub open spec fn gzip_limited_of(bytes: Seq<u8>) -> Option<Seq<u8>> {
    match gzip_bounded(bytes, (MAX_EML_BYTES + 1) as u64) {
        Some(v) => if v.len() == 0 || v.len() > MAX_EML_BYTES {
            None
        } else {
            Some(v)
        },
        None => None,
    }
}

/// The start of a gzip stream's content: what one read of up to 512 bytes
/// gives, unless it gives nothing.
pub fn gunzip_prefix(bytes: &[u8]) -> (r: Option<Vec<u8>>)
    ensures
        opt_bytes(r) == gzip_prefix_of(bytes@),
{
    match gzip_read_once(bytes, 512) {
        Some(v) => if v.len() == 0 {
            None
        } else {
            Some(v)
        },
        None => None,
    }
}

/// The whole content of a gzip stream when it is not empty and at most
/// [`MAX_EML_BYTES`] long; one byte more is read to tell a stream that is
/// too long from one that just fits.
pub fn try_gunzip_limited(bytes: &[u8]) -> (r: Option<Vec<u8>>)
    ensures
        opt_bytes(r) == gzip_limited_of(bytes@),
{
    match gunzip_bounded(bytes, MAX_EML_BYTES + 1) {
        Some(v) => if v.len() == 0 || v.len() as u64 > MAX_EML_BYTES {
            None
        } else {
            Some(v)
        },
        None => None,
    }
}

} // verus!

verus! {

/// The entries of a zip archive as (name, uncompressed size), in index
/// order; an entry whose header or name could not be read is `None`.
pub open spec fn listing_view(o: Option<Vec<Option<(String, u64)>>>) -> Option<Seq<Option<(Seq<char>, u64)>>> {
    match o {
        Some(v) => Some(v@.map_values(|e: Option<(String, u64)>| entry_view(e))),
        None => None,
    }
}

/// One entry of a zip listing, its name taken by its characters.
pub open spec fn entry_view(e: Option<(String, u64)>) -> Option<(Seq<char>, u64)> {
    match e {
        Some(p) => Some((p.0@, p.1)),
        None => None,
    }
}

/// What the `zip` crate lists of the archive in `data`, when it can open it.
pub uninterp spec fn zip_listing(data: Seq<u8>) -> Option<Seq<Option<(Seq<char>, u64)>>>;

/// `zip::ZipArchive::new` over `data`, then `by_index`, `name` and `size`
/// for every index: the list of entries, or `None` when the archive cannot
/// be opened.  The result is named.
#[verifier::external_body]
fn zip_entries(data: &[u8]) -> (r: Option<Vec<Option<(String, u64)>>>)
    ensures
        listing_view(r) == zip_listing(data@),
{
    let mut archive = zip::ZipArchive::new(std::io::Cursor::new(data)).ok()?;
    let n = archive.len();
    Some((0..n).map(|i| archive.by_index(i).ok().and_then(
        |f| f.name().ok().map(|name| (name.to_string(), f.size())),
    )).collect())
}

/// What the `zip` crate reads of entry `index` of the archive in `data`,
/// through `Read::take(limit)`, when it succeeds.
pub uninterp spec fn zip_entry_read(data: Seq<u8>, index: usize, limit: u64) -> Option<Seq<u8>>;

/// `zip::ZipArchive::new` over `data`, `by_index(index)`, and `read_to_end`
/// through `Read::take(limit)`: the bytes read, or `None` on an error.  The
/// result is named; that it holds at most `limit` bytes is std's `Take`
/// contract.
#[verifier::external_body]
fn zip_read_entry(data: &[u8], index: usize, limit: u64) -> (r: Option<Vec<u8>>)
    ensures
        opt_bytes(r) == zip_entry_read(data@, index, limit),
        r matches Some(v) ==> v@.len() <= limit,
{
    let mut archive = zip::ZipArchive::new(std::io::Cursor::new(data)).ok()?;
    let file = archive.by_index(index).ok()?;
    let mut buf = Vec::new();
    std::io::Read::read_to_end(&mut std::io::Read::take(file, limit), &mut buf).ok()?;
    Some(buf)
}

/// An archive entry whose name, lower-cased, ends in `.eml`.
pub open spec fn is_eml_entry(e: Option<(Seq<char>, u64)>) -> bool {
    match e {
        Some(p) => ends_with(lower_text(p.0), ".eml"@),
        None => false,
    }
}

fn eml_entry(e: &Option<(String, u64)>) -> (r: bool)
    ensures
        r == is_eml_entry(entry_view(*e)),
{
    match e {
        Some(p) => {
            let lower = to_lowercase(p.0.as_str());
            let l = chars_of(lower.as_str());
            let ext = chars_of(".eml");
            has_suffix(&l, &ext)
        },
        None => false,
    }
}

/// The bytes are a zip archive with at least one `.eml` entry.
pub open spec fn zip_holds_eml(bytes: Seq<u8>) -> bool {
    match zip_listing(bytes) {
        Some(es) => exists|i: int| 0 <= i < es.len() && is_eml_entry(#[trigger] es[i]),
        None => false,
    }
}

/// Whether the bytes are a zip archive with at least one `.eml` entry.
pub fn zip_has_eml(bytes: &[u8]) -> (r: bool)
    ensures
        r == zip_holds_eml(bytes@),
{
    let entries = match zip_entries(bytes) {
        Some(es) => es,
        None => {
            return false;
        },
    };
    let ghost es = listing_view(Some(entries))->0;
    let mut i: usize = 0;
    while i < entries.len()
        invariant
            i <= entries.len(),
            es == listing_view(Some(entries))->0,
            es.len() == entries.len(),
            zip_listing(bytes@) == Some(es),
            forall|j: int| 0 <= j < i ==> !is_eml_entry(#[trigger] es[j]),
        decreases entries.len() - i,
    {
        assert(es[i as int] == entry_view(entries@[i as int]));
        if eml_entry(&entries[i]) {
            assert(is_eml_entry(es[i as int]));
            return true;
        }
        i = i + 1;
    }
    false
}

/// The search for the first `.eml` entry of an archive from index `i` on:
/// an entry larger than [`MAX_EML_BYTES`] ends the search with nothing, an
/// entry that reads as a non-empty byte string ends it with those bytes,
/// any other entry is passed over.
pub open spec fn find_eml_from(data: Seq<u8>, es: Seq<Option<(Seq<char>, u64)>>, i: int) -> Option<Seq<u8>>
    decreases es.len() - i,
{
    if i < 0 || i >= es.len() {
        None
    } else if !is_eml_entry(es[i]) {
        find_eml_from(data, es, i + 1)
    } else if (es[i]->0).1 > MAX_EML_BYTES {
        None
    } else {
        match zip_entry_read(data, i as usize, MAX_EML_BYTES) {
            Some(b) => if b.len() > 0 {
                Some(b)
            } else {
                find_eml_from(data, es, i + 1)
            },
            None => find_eml_from(data, es, i + 1),
        }
    }
}

/// The bytes of the first `.eml` entry of a zip archive, when the archive
/// opens, the entry is not larger than [`MAX_EML_BYTES`] and reads as a
/// non-empty byte string.
pub open spec fn zip_eml_of(bytes: Seq<u8>) -> Option<Seq<u8>> {
    match zip_listing(bytes) {
        Some(es) => find_eml_from(bytes, es, 0),
        None => None,
    }
}

/// The bytes of the first `.eml` entry of a zip archive, when the archive
/// opens, the entry is not larger than [`MAX_EML_BYTES`] and reads as a
/// non-empty byte string.
pub fn try_zip_find_eml(bytes: &[u8]) -> (r: Option<Vec<u8>>)
    ensures
        opt_bytes(r) == zip_eml_of(bytes@),
{
    let entries = match zip_entries(bytes) {
        Some(es) => es,
        None => {
            return None;
        },
    };
    let ghost es = listing_view(Some(entries))->0;
    let mut i: usize = 0;
    while i < entries.len()
        invariant
            i <= entries.len(),
            es == listing_view(Some(entries))->0,
            es.len() == entries.len(),
            zip_listing(bytes@) == Some(es),
            find_eml_from(bytes@, es, 0) == find_eml_from(bytes@, es, i as int),
        decreases entries.len() - i,
    {
        assert(es[i as int] == entry_view(entries@[i as int]));
        if eml_entry(&entries[i]) {
            let size = match &entries[i] {
                Some(p) => p.1,
                None => 0,
            };
            if size > MAX_EML_BYTES {
                return None;
            }
            match zip_read_entry(bytes, i, MAX_EML_BYTES) {
                Some(buf) => {
                    if buf.len() > 0 {
                        return Some(buf);
                    }
                },
                None => {},
            }
        }
        i = i + 1;
    }
    None
}

} // verus!
