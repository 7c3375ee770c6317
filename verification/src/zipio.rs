//! Trusted surface over the `zip` crate, kept to one call site per outside
//! function. Archives are handled entirely in memory over a byte cursor, so
//! every outcome below — parsing, per-entry decompression, adding an entry,
//! closing the archive — is a function of the bytes and the writer's
//! contents alone; the names here make those outcomes statable, and the
//! verified callers owe exact success conditions in terms of them.

use vstd::prelude::*;
use vstd::utf8::encode_utf8;

use std::io::{Cursor, Read, Write};

verus! {

#[verifier::external_type_specification]
#[verifier::external_body]
#[verifier::reject_recursive_types(R)]
pub struct ExZipArchive<R>(zip::ZipArchive<R>);

#[verifier::external_type_specification]
#[verifier::external_body]
#[verifier::reject_recursive_types(T)]
pub struct ExCursor<T>(Cursor<T>);

/// Holds the `zip` crate's archive writer over an in-memory cursor. The
/// writer's own generic bounds name traits Verus does not know, so the
/// outside type cannot be declared directly; Verus sees this holder only
/// through `writer_entries` and the trusted wrappers below.
#[verifier::external_body]
pub struct ArchiveWriter {
    inner: zip::ZipWriter<Cursor<Vec<u8>>>,
}

/// The entries that parsing `bytes` as a zip archive lists, in central
/// directory order: each entry's name, decompressed bytes, and whether it
/// is stored without compression.
pub uninterp spec fn zip_entries(bytes: Seq<u8>) -> Seq<(Seq<char>, Seq<u8>, bool)>;

/// Whether `bytes` parse as a zip archive at all. Parsing in-memory bytes
/// is deterministic, so success is a function of the bytes alone.
pub uninterp spec fn parses_as_zip(bytes: Seq<u8>) -> bool;

/// Whether entry `i` of the archive `bytes` can be read out whole: its
/// local header is sound and its data decompresses cleanly. Deterministic
/// in the bytes and the index.
pub uninterp spec fn zip_readable(bytes: Seq<u8>, i: int) -> bool;

/// The bytes an open reader was opened on.
pub uninterp spec fn reader_source(a: zip::ZipArchive<Cursor<Vec<u8>>>) -> Seq<u8>;

/// What a writer has accepted so far, in order.
pub uninterp spec fn writer_entries(w: ArchiveWriter) -> Seq<(Seq<char>, Seq<u8>, bool)>;

/// Whether a writer holding `entries` accepts one more entry with the
/// given name, bytes and compression. The writer runs over memory, so the
/// outcome (a repeated or overlong name is rejected, anything else is
/// taken) depends on nothing but these arguments.
pub uninterp spec fn add_ok(
    entries: Seq<(Seq<char>, Seq<u8>, bool)>,
    name: Seq<char>,
    data: Seq<u8>,
    stored: bool,
) -> bool;

/// Whether closing a writer holding `entries` succeeds; again a function
/// of the contents alone.
pub uninterp spec fn finish_ok(entries: Seq<(Seq<char>, Seq<u8>, bool)>) -> bool;

/// An entry name that the archive container reproduces byte-for-byte: zip
/// maps ASCII control bytes through a legacy character table on the way
/// back out, so those are kept out.
pub open spec fn zip_safe_name(n: Seq<char>) -> bool {
    forall|i: int|
        0 <= i < encode_utf8(n).len() ==> 0x20 <= #[trigger] encode_utf8(n)[i] && encode_utf8(
            n,
        )[i] != 0x7f
}

/// Whether the name can round-trip through the archive container.
pub fn name_zip_safe(s: &str) -> (r: bool)
    ensures
        r == zip_safe_name(s@),
{
    let b = s.as_bytes();
    let n = b.len();
    let mut i: usize = 0;
    while i < n
        invariant
            n == b@.len(),
            b@ == encode_utf8(s@),
            i <= n,
            forall|j: int| 0 <= j < i ==> 0x20 <= #[trigger] b@[j] && b@[j] != 0x7f,
        decreases n - i,
    {
        if b[i] < 0x20 || b[i] == 0x7f {
            return false;
        }
        i += 1;
    }
    true
}

/// Relies on zip::ZipArchive::new over an in-memory cursor: it parses the
/// archive's directory, succeeding exactly when the bytes parse as a zip
/// archive; what the reader then lists is `zip_entries` of its source.
#[verifier::external_body]
pub(crate) fn archive_open(bytes: Vec<u8>) -> (r: Option<zip::ZipArchive<Cursor<Vec<u8>>>>)
    ensures
        r is Some <==> parses_as_zip(bytes@),
        r matches Some(a) ==> reader_source(a) == bytes@,
{
    zip::ZipArchive::new(Cursor::new(bytes)).ok()
}

/// Relies on zip::ZipArchive::len: the number of entries listed.
#[verifier::external_body]
pub(crate) fn archive_len(a: &zip::ZipArchive<Cursor<Vec<u8>>>) -> (r: usize)
    ensures
        r == zip_entries(reader_source(*a)).len(),
{
    a.len()
}

/// Relies on zip::ZipArchive::by_index, ZipFile::name, ZipFile::compression
/// and Read::read_to_end: entry `i`'s name, decompressed bytes and
/// compression method, converted to plain values. The calls succeed exactly
/// when the entry is readable from the source bytes, and the listing itself
/// is unchanged either way.
#[verifier::external_body]
pub(crate) fn archive_entry(a: &mut zip::ZipArchive<Cursor<Vec<u8>>>, i: usize) -> (r: Option<
    (String, Vec<u8>, bool),
>)
    requires
        i < zip_entries(reader_source(*old(a))).len(),
    ensures
        reader_source(*final(a)) == reader_source(*old(a)),
        r is Some <==> zip_readable(reader_source(*old(a)), i as int),
        r matches Some(e) ==> (e.0@, e.1@, e.2) == zip_entries(reader_source(*old(a)))[i as int],
{
    let mut f = match a.by_index(i) {
        Ok(f) => f,
        Err(_) => return None,
    };
    let name = f.name().to_string();
    let stored = f.compression() == zip::CompressionMethod::Stored;
    let mut data = Vec::new();
    if f.read_to_end(&mut data).is_err() {
        return None;
    }
    Some((name, data, stored))
}

/// Relies on zip::ZipWriter::new over a fresh in-memory cursor: a writer
/// with no entries yet.
#[verifier::external_body]
pub(crate) fn writer_new() -> (r: ArchiveWriter)
    ensures
        writer_entries(r) == Seq::<(Seq<char>, Seq<u8>, bool)>::empty(),
{
    ArchiveWriter { inner: zip::ZipWriter::new(Cursor::new(Vec::new())) }
}

/// Relies on zip::ZipWriter::start_file and Write::write_all: whether the
/// entry is taken depends only on the writer's contents and the arguments
/// (`add_ok`; zip rejects a repeated name rather than overwriting); on
/// success one entry is appended, stored without compression when `stored`
/// and deflate-compressed otherwise.
#[verifier::external_body]
pub(crate) fn writer_add(w: &mut ArchiveWriter, name: &str, data: &[u8], stored: bool) -> (r:
    bool)
    requires
        zip_safe_name(name@),
    ensures
        r == add_ok(writer_entries(*old(w)), name@, data@, stored),
        r ==> writer_entries(*final(w)) == writer_entries(*old(w)).push((name@, data@, stored)),
{
    let method = if stored {
        zip::CompressionMethod::Stored
    } else {
        zip::CompressionMethod::Deflated
    };
    let opts = zip::write::SimpleFileOptions::default().compression_method(method);
    if w.inner.start_file(name, opts).is_err() {
        return false;
    }
    w.inner.write_all(data).is_ok()
}

/// Relies on zip::ZipWriter::finish and Cursor::into_inner: closing
/// succeeds exactly when the contents allow it (`finish_ok`), and then
/// hands back bytes that parse to exactly the entries written, in order.
#[verifier::external_body]
pub(crate) fn writer_finish(w: ArchiveWriter) -> (r: Option<Vec<u8>>)
    ensures
        r is Some <==> finish_ok(writer_entries(w)),
        r matches Some(b) ==> zip_entries(b@) == writer_entries(w),
{
    match w.inner.finish() {
        Ok(c) => Some(c.into_inner()),
        Err(_) => None,
    }
}

} // verus!
