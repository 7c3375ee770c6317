//! The archive repackager: reads an EPUB's entries into memory, patches the
//! metadata document, and rebuilds the container with the mandatory
//! uncompressed `mimetype` first entry and deflate for everything else.

use vstd::prelude::*;
use vstd::utf8::encode_utf8;

use crate::errors::EditError;
use crate::patch::{patch_metadata, patched_metadata};
use crate::search::bytes_eq;
use crate::substitute::{resolve_format, resolved_spec};
use crate::zipio::{
    add_ok, archive_entry, archive_len, archive_open, finish_ok, name_zip_safe, parses_as_zip,
    reader_source, writer_add, writer_finish, writer_new, zip_entries, zip_readable,
    zip_safe_name, writer_entries,
};

verus! {

/// One archive entry held as plain values: its relative path inside the
/// container, its (decompressed) bytes, and whether the container stores it
/// without compression.
pub struct ArchiveEntry {
    pub name: String,
    pub data: Vec<u8>,
    pub stored: bool,
}

/// The resolved field table of one book on the apply worklist: the
/// archive's path, the editable title, the series name, the naming format
/// (absent when the series never got one), and the book's 0-based position
/// in its series.
#[derive(Clone)]
pub struct FlatBook {
    pub path: String,
    pub title: String,
    pub series: String,
    pub format: Option<String>,
    pub order: usize,
}

impl FlatBook {
    /// The resolved substitution value for this book, when it has a format.
    pub open spec fn value_spec(&self) -> Result<Seq<u8>, Seq<u8>>
        recommends
            self.format is Some,
    {
        resolved_spec(self.format->0@, self.order as nat, self.title@, self.series@)
    }
}

pub open spec fn entry_model(e: ArchiveEntry) -> (Seq<char>, Seq<u8>, bool) {
    (e.name@, e.data@, e.stored)
}

pub open spec fn entries_model(v: Seq<ArchiveEntry>) -> Seq<(Seq<char>, Seq<u8>, bool)> {
    v.map_values(|e: ArchiveEntry| entry_model(e))
}

/// The archive bytes parse, and every listed entry can be read out whole.
pub open spec fn archive_readable(bytes: Seq<u8>) -> bool {
    parses_as_zip(bytes) && (forall|i: int|
        0 <= i < zip_entries(bytes).len() ==> #[trigger] zip_readable(bytes, i))
}

/// Reads every entry of the archive bytes into memory; succeeds exactly
/// when the bytes parse as an archive and every entry is readable.
pub fn read_archive(bytes: Vec<u8>) -> (r: Result<Vec<ArchiveEntry>, EditError>)
    ensures
        r is Ok <==> archive_readable(bytes@),
        r matches Ok(v) ==> entries_model(v@) == zip_entries(bytes@),
        r matches Err(e) ==> e is IoError,
{
    let ghost src = bytes@;
    let ghost zm = zip_entries(bytes@);
    let mut a = match archive_open(bytes) {
        Some(a) => a,
        None => {
            return Err(EditError::IoError);
        },
    };
    let n = archive_len(&a);
    let mut out: Vec<ArchiveEntry> = Vec::new();
    let mut i: usize = 0;
    while i < n
        invariant
            src == bytes@,
            reader_source(a) == src,
            zm == zip_entries(src),
            n == zm.len(),
            i <= n,
            forall|j: int| 0 <= j < i ==> #[trigger] zip_readable(src, j),
            entries_model(out@) =~= zm.subrange(0, i as int),
        decreases n - i,
    {
        match archive_entry(&mut a, i) {
            None => {
                proof {
                    assert(!zip_readable(src, i as int));
                    assert((i as int) < zip_entries(src).len());
                    assert(!archive_readable(src));
                }
                return Err(EditError::IoError);
            },
            Some((name, data, stored)) => {
                let ae = ArchiveEntry { name, data, stored };
                proof {
                    assert(entry_model(ae) == zm[i as int]);
                }
                let ghost prev = out@;
                out.push(ae);
                proof {
                    assert(out@ == prev.push(ae));
                    assert(entries_model(prev).len() == prev.len());
                    assert(prev.len() == i as int);
                    assert forall|j: int| 0 <= j < i + 1 implies entries_model(out@)[j] == zm[j] by {
                        if j < i {
                            assert(out@[j] == prev[j]);
                            assert(entries_model(prev)[j] == zm.subrange(0, i as int)[j]);
                        } else {
                            assert(out@[j] == ae);
                        }
                    }
                    assert(entries_model(out@) =~= zm.subrange(0, i + 1));
                }
            },
        }
        i += 1;
    }
    proof {
        assert(entries_model(out@) =~= zm);
    }
    Ok(out)
}

/// The fixed first entry's name.
pub open spec fn mimetype_name() -> Seq<char> {
    "mimetype"@
}

/// The fixed first entry's exact content.
pub open spec fn mimetype_body() -> Seq<u8> {
    encode_utf8("application/epub+zip"@)
}

/// A directory placeholder entry: its name ends in `/`.
pub open spec fn is_dir_name(n: Seq<char>) -> bool {
    encode_utf8(n).len() > 0 && encode_utf8(n).last() == 47
}

/// Entries that the rebuilt archive carries over from the source: every
/// file entry except a re-encountered `mimetype`.
pub open spec fn keep_entry(e: (Seq<char>, Seq<u8>, bool)) -> bool {
    e.0 != mimetype_name() && !is_dir_name(e.0)
}

/// The kept entries, in order, all marked deflate-compressed.
pub open spec fn deflated_kept(es: Seq<(Seq<char>, Seq<u8>, bool)>) -> Seq<
    (Seq<char>, Seq<u8>, bool),
>
    decreases es.len(),
{
    if es.len() == 0 {
        Seq::empty()
    } else {
        let rest = deflated_kept(es.drop_last());
        let e = es.last();
        if keep_entry(e) {
            rest.push((e.0, e.1, false))
        } else {
            rest
        }
    }
}

/// What a rebuilt archive lists: the uncompressed `mimetype` entry first,
/// then every kept source entry, deflate-compressed, in source order.
pub open spec fn rebuilt_model(es: Seq<(Seq<char>, Seq<u8>, bool)>) -> Seq<
    (Seq<char>, Seq<u8>, bool),
> {
    seq![(mimetype_name(), mimetype_body(), true)] + deflated_kept(es)
}

/// Whether the entry name's final path component is `content.opf`.
pub open spec fn is_opf_name(n: Seq<char>) -> bool {
    let b = encode_utf8(n);
    let p1 = encode_utf8("content.opf"@);
    let p2 = encode_utf8("/content.opf"@);
    b == p1 || (b.len() >= p2.len() && b.subrange(b.len() - p2.len(), b.len() as int) == p2)
}

fn entry_is_opf(name: &str) -> (r: bool)
    ensures
        r == is_opf_name(name@),
{
    let b = name.as_bytes();
    let p1 = "content.opf".as_bytes();
    let p2 = "/content.opf".as_bytes();
    if bytes_eq(b, p1) {
        true
    } else if b.len() >= p2.len() {
        let tail = crate::search::sub_to_vec(b, b.len() - p2.len(), b.len());
        bytes_eq(tail.as_slice(), p2)
    } else {
        false
    }
}

/// Index of the first entry whose file name is `content.opf`, from `i` on,
/// or `-1`.
pub open spec fn opf_idx_from(es: Seq<(Seq<char>, Seq<u8>, bool)>, i: int) -> int
    decreases es.len() - i,
{
    if i < 0 || i >= es.len() {
        -1
    } else if is_opf_name(es[i].0) {
        i
    } else {
        opf_idx_from(es, i + 1)
    }
}

/// Patches the metadata document among the entries: the single
/// `content.opf` entry's bytes are replaced by the patched document; a book
/// without a naming format leaves every entry untouched. Fails with
/// `MetadataNotFound` exactly when no entry is named `content.opf`, and
/// with `UnknownPlaceholder` exactly when the format names one.
pub fn edit_entries(entries: Vec<ArchiveEntry>, book: &FlatBook) -> (r: Result<
    Vec<ArchiveEntry>,
    EditError,
>)
    requires
        book.order < usize::MAX,
    ensures
        ({
            let es = entries_model(entries@);
            let k = opf_idx_from(es, 0);
            match r {
                Ok(v) => k >= 0 && match book.format {
                    None => entries_model(v@) == es,
                    Some(f) => book.value_spec() matches Ok(val) && entries_model(v@) == es.update(
                        k,
                        (es[k].0, patched_metadata(es[k].1, val), es[k].2),
                    ),
                },
                Err(e) => match e {
                    EditError::MetadataNotFound => k == -1,
                    EditError::UnknownPlaceholder(s) => k >= 0 && book.format is Some
                        && book.value_spec() == Err::<Seq<u8>, Seq<u8>>(encode_utf8(s@)),
                    EditError::IoError => false,
                },
            }
        }),
        r is Err <==> ({
            let es = entries_model(entries@);
            opf_idx_from(es, 0) == -1 || (book.format is Some && book.value_spec() is Err)
        }),
{
    let ghost es = entries_model(entries@);
    let n = entries.len();
    let mut i: usize = 0;
    let mut found: Option<usize> = None;
    while i < n && found.is_none()
        invariant
            n == es.len(),
            i <= n,
            match found {
                Some(k) => k == i && i < n && opf_idx_from(es, 0) == k as int,
                None => forall|j: int| 0 <= j < i ==> !is_opf_name(#[trigger] es[j].0),
            },
            entries_model(entries@) == es,
            n == entries.len(),
        decreases n - i + (if found.is_none() { 1int } else { 0int }),
    {
        if entry_is_opf(entries[i].name.as_str()) {
            proof {
                lemma_opf_idx_found(es, i as int);
            }
            found = Some(i);
        } else {
            i += 1;
        }
    }
    match found {
        None => {
            proof {
                lemma_opf_idx_not_found(es);
            }
            Err(EditError::MetadataNotFound)
        },
        Some(k) => {
            match &book.format {
                None => Ok(entries),
                Some(f) => {
                    match resolve_format(
                        f.as_str(),
                        book.order,
                        book.title.as_str(),
                        book.series.as_str(),
                    ) {
                        Err(e) => Err(e),
                        Ok(val) => {
                            let patched = patch_metadata(
                                entries[k].data.as_slice(),
                                val.as_slice(),
                            );
                            let name = entries[k].name.clone();
                            let stored = entries[k].stored;
                            let mut entries = entries;
                            entries[k] = ArchiveEntry { name, data: patched, stored };
                            proof {
                                let ki = k as int;
                                assert(entries_model(entries@) =~= es.update(
                                    ki,
                                    (es[ki].0, patched_metadata(es[ki].1, val@), es[ki].2),
                                ));
                            }
                            Ok(entries)
                        },
                    }
                },
            }
        },
    }
}

proof fn lemma_opf_idx_found(es: Seq<(Seq<char>, Seq<u8>, bool)>, k: int)
    requires
        0 <= k < es.len(),
        is_opf_name(es[k].0),
        forall|j: int| 0 <= j < k ==> !is_opf_name(#[trigger] es[j].0),
    ensures
        opf_idx_from(es, 0) == k,
{
    lemma_opf_idx_step(es, 0, k);
}

proof fn lemma_opf_idx_step(es: Seq<(Seq<char>, Seq<u8>, bool)>, i: int, k: int)
    requires
        0 <= i <= k < es.len(),
        is_opf_name(es[k].0),
        forall|j: int| i <= j < k ==> !is_opf_name(#[trigger] es[j].0),
    ensures
        opf_idx_from(es, i) == k,
    decreases k - i,
{
    if i < k {
        lemma_opf_idx_step(es, i + 1, k);
    }
}

proof fn lemma_opf_idx_not_found(es: Seq<(Seq<char>, Seq<u8>, bool)>)
    requires
        forall|j: int| 0 <= j < es.len() ==> !is_opf_name(#[trigger] es[j].0),
    ensures
        opf_idx_from(es, 0) == -1,
{
    lemma_opf_idx_none_step(es, 0);
}

proof fn lemma_opf_idx_none_step(es: Seq<(Seq<char>, Seq<u8>, bool)>, i: int)
    requires
        forall|j: int| 0 <= j < es.len() ==> !is_opf_name(#[trigger] es[j].0),
        0 <= i,
    ensures
        opf_idx_from(es, i) == -1,
    decreases es.len() - i,
{
    if i < es.len() {
        lemma_opf_idx_none_step(es, i + 1);
    }
}

/// Every kept entry of `es`, taken in order, has a name the container
/// reproduces and is accepted by a writer holding what came before it.
pub open spec fn rebuild_adds_ok(es: Seq<(Seq<char>, Seq<u8>, bool)>) -> bool
    decreases es.len(),
{
    if es.len() == 0 {
        true
    } else {
        rebuild_adds_ok(es.drop_last()) && (keep_entry(es.last()) ==> zip_safe_name(es.last().0)
            && add_ok(rebuilt_model(es.drop_last()), es.last().0, es.last().1, false))
    }
}

/// When rebuilding the container is owed to succeed: the fixed `mimetype`
/// entry is accepted first, every kept entry in order after it, and the
/// archive can be closed.
pub open spec fn rebuild_succeeds(es: Seq<(Seq<char>, Seq<u8>, bool)>) -> bool {
    &&& add_ok(
        Seq::<(Seq<char>, Seq<u8>, bool)>::empty(),
        mimetype_name(),
        mimetype_body(),
        true,
    )
    &&& rebuild_adds_ok(es)
    &&& finish_ok(rebuilt_model(es))
}

proof fn lemma_adds_ok_prefix(es: Seq<(Seq<char>, Seq<u8>, bool)>, n: int)
    requires
        rebuild_adds_ok(es),
        0 <= n <= es.len(),
    ensures
        rebuild_adds_ok(es.subrange(0, n)),
    decreases es.len() - n,
{
    if n == es.len() {
        assert(es.subrange(0, n) =~= es);
    } else {
        lemma_adds_ok_prefix(es, n + 1);
        let p = es.subrange(0, n + 1);
        assert(p.drop_last() =~= es.subrange(0, n));
    }
}

/// If the rebuild conditions hold of the whole list, they hold of every
/// kept entry against the writer contents at its turn.
proof fn lemma_adds_ok_at(es: Seq<(Seq<char>, Seq<u8>, bool)>, i: int)
    requires
        rebuild_adds_ok(es),
        0 <= i < es.len(),
        keep_entry(es[i]),
    ensures
        zip_safe_name(es[i].0),
        add_ok(rebuilt_model(es.subrange(0, i)), es[i].0, es[i].1, false),
{
    lemma_adds_ok_prefix(es, i + 1);
    let p = es.subrange(0, i + 1);
    assert(p.drop_last() =~= es.subrange(0, i));
    assert(p.last() == es[i]);
}

/// Rebuilds the container from the entries: a `mimetype` entry, stored
/// without compression with the exact container declaration, always comes
/// first; every other file entry follows in order, deflate-compressed,
/// under its source path. Whatever the source held, the first listed entry
/// of the result is that `mimetype` entry. Rebuilding succeeds exactly
/// under `rebuild_succeeds`: the container takes the fixed first entry and
/// every kept entry, and closes.
pub fn rebuild_archive(entries: &Vec<ArchiveEntry>) -> (r: Result<Vec<u8>, EditError>)
    ensures
        r is Ok <==> rebuild_succeeds(entries_model(entries@)),
        r matches Ok(out) ==> zip_entries(out@) == rebuilt_model(entries_model(entries@)),
        r matches Ok(out) ==> zip_entries(out@).len() > 0 && zip_entries(out@)[0] == (
        mimetype_name(),
        mimetype_body(),
        true,
        ),
        r matches Err(e) ==> e is IoError,
{
    let ghost es = entries_model(entries@);
    let mut w = writer_new();
    let mname = String::from_str("mimetype");
    let mbody = crate::search::to_vec_bytes("application/epub+zip".as_bytes());
    proof {
        reveal_strlit("mimetype");
        assert(vstd::utf8::is_ascii_chars(mname@));
        vstd::utf8::is_ascii_chars_encode_utf8(mname@);
        assert forall|i: int|
            0 <= i < encode_utf8(mname@).len() implies 0x20 <= #[trigger] encode_utf8(mname@)[i]
            && encode_utf8(mname@)[i] != 0x7f by {
            assert(encode_utf8(mname@)[i] == mname@[i] as u8);
        }
        assert(zip_safe_name(mname@));
    }
    if !writer_add(&mut w, mname.as_str(), mbody.as_slice(), true) {
        proof {
            assert(!add_ok(
                Seq::<(Seq<char>, Seq<u8>, bool)>::empty(),
                mimetype_name(),
                mimetype_body(),
                true,
            ));
        }
        return Err(EditError::IoError);
    }
    let n = entries.len();
    let mut i: usize = 0;
    while i < n
        invariant
            n == es.len() == entries@.len(),
            es == entries_model(entries@),
            mname@ == mimetype_name(),
            i <= n,
            add_ok(
                Seq::<(Seq<char>, Seq<u8>, bool)>::empty(),
                mimetype_name(),
                mimetype_body(),
                true,
            ),
            rebuild_adds_ok(es.subrange(0, i as int)),
            writer_entries(w) =~= seq![(mimetype_name(), mimetype_body(), true)] + deflated_kept(
                es.subrange(0, i as int),
            ),
        decreases n - i,
    {
        proof {
            assert(es.subrange(0, i + 1).drop_last() =~= es.subrange(0, i as int));
            assert(es.subrange(0, i + 1).last() == es[i as int]);
            assert(es[i as int] == entry_model(entries@[i as int]));
        }
        let e = &entries[i];
        let b = e.name.as_str().as_bytes();
        let dir = b.len() > 0 && b[b.len() - 1] == 47;
        proof {
            assert(b@ == encode_utf8(e.name@));
            if b@.len() > 0 {
                assert(b@.last() == b@[b@.len() - 1]);
            }
            assert(dir == is_dir_name(e.name@));
        }
        let is_mime = e.name.eq(&mname);
        proof {
            assert(is_mime == (e.name@ == mname@));
            assert(mname@ == mimetype_name());
        }
        if !dir && !is_mime {
            proof {
                assert(es[i as int].0 == e.name@);
                assert(e.name@ != mimetype_name());
                assert(!is_dir_name(e.name@));
                assert(keep_entry(es[i as int]));
            }
            if !name_zip_safe(e.name.as_str()) {
                proof {
                    if rebuild_adds_ok(es) {
                        lemma_adds_ok_at(es, i as int);
                        assert(false);
                    }
                }
                return Err(EditError::IoError);
            }
            proof {
                assert(writer_entries(w) == rebuilt_model(es.subrange(0, i as int)));
            }
            if !writer_add(&mut w, e.name.as_str(), e.data.as_slice(), false) {
                proof {
                    assert(!add_ok(
                        rebuilt_model(es.subrange(0, i as int)),
                        es[i as int].0,
                        es[i as int].1,
                        false,
                    ));
                    if rebuild_adds_ok(es) {
                        lemma_adds_ok_at(es, i as int);
                        assert(false);
                    }
                }
                return Err(EditError::IoError);
            }
            proof {
                assert(add_ok(
                    rebuilt_model(es.subrange(0, i as int)),
                    es[i as int].0,
                    es[i as int].1,
                    false,
                ));
                assert(rebuild_adds_ok(es.subrange(0, i + 1)));
                assert(writer_entries(w) =~= seq![(mimetype_name(), mimetype_body(), true)]
                    + deflated_kept(es.subrange(0, i + 1)));
            }
        } else {
            proof {
                assert(es[i as int].0 == e.name@);
                assert(dir || e.name@ == mimetype_name());
                assert(!keep_entry(es[i as int]));
                assert(rebuild_adds_ok(es.subrange(0, i + 1)));
                assert(deflated_kept(es.subrange(0, i + 1)) == deflated_kept(
                    es.subrange(0, i as int),
                ));
            }
        }
        i += 1;
    }
    proof {
        assert(es.subrange(0, n as int) =~= es);
        assert(rebuild_adds_ok(es));
        assert(writer_entries(w) == rebuilt_model(es));
    }
    match writer_finish(w) {
        Some(out) => {
            proof {
                assert(finish_ok(rebuilt_model(es)));
                assert(rebuild_succeeds(es));
            }
            Ok(out)
        },
        None => {
            proof {
                assert(!finish_ok(rebuilt_model(es)));
            }
            Err(EditError::IoError)
        },
    }
}

} // verus!

