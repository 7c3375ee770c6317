use std::io::{Cursor, Read, Write};

use ebook_meta_editor::archive::{edit_entries, read_archive, rebuild_archive, ArchiveEntry, FlatBook};
use ebook_meta_editor::errors::EditError;

fn opf_text(title: &str) -> String {
    format!(
        "<?xml version=\"1.0\"?>\n<package>\n  <dc:title>{}</dc:title>\n  <meta name=\"calibre:title_sort\" content=\"{}\"/>\n</package>\n",
        title, title
    )
}

/// Builds a small EPUB-shaped archive in memory with the given title.
fn make_epub(title: &str) -> Vec<u8> {
    let mut w = zip::ZipWriter::new(Cursor::new(Vec::new()));
    let stored = zip::write::SimpleFileOptions::default()
        .compression_method(zip::CompressionMethod::Stored);
    let deflated = zip::write::SimpleFileOptions::default()
        .compression_method(zip::CompressionMethod::Deflated);
    w.start_file("mimetype", stored).unwrap();
    w.write_all(b"application/epub+zip").unwrap();
    w.start_file("OEBPS/content.opf", deflated).unwrap();
    w.write_all(opf_text(title).as_bytes()).unwrap();
    w.start_file("OEBPS/chapter1.xhtml", deflated).unwrap();
    w.write_all(b"<html><body>hello</body></html>").unwrap();
    w.finish().unwrap().into_inner()
}

fn book(title: &str, series: &str, format: Option<&str>, order: usize) -> FlatBook {
    FlatBook {
        path: String::from("/books/a.epub"),
        title: title.to_string(),
        series: series.to_string(),
        format: format.map(|f| f.to_string()),
        order,
    }
}

fn entry_data(bytes: &[u8], name: &str) -> Vec<u8> {
    let mut a = zip::ZipArchive::new(Cursor::new(bytes.to_vec())).unwrap();
    let mut f = a.by_name(name).unwrap();
    let mut d = Vec::new();
    f.read_to_end(&mut d).unwrap();
    d
}

fn run_edit(source: &[u8], b: &FlatBook) -> Vec<u8> {
    let entries = read_archive(source.to_vec()).unwrap();
    let edited = edit_entries(entries, b).unwrap();
    rebuild_archive(&edited).unwrap()
}

#[test]
fn first_entry_is_uncompressed_mimetype() {
    let src = make_epub("Old");
    let out = run_edit(&src, &book("Old", "S", Some("${title}"), 0));
    let mut a = zip::ZipArchive::new(Cursor::new(out)).unwrap();
    let mut first = a.by_index(0).unwrap();
    assert_eq!(first.name(), "mimetype");
    assert_eq!(first.compression(), zip::CompressionMethod::Stored);
    let mut d = Vec::new();
    first.read_to_end(&mut d).unwrap();
    assert_eq!(d, b"application/epub+zip".to_vec());
}

#[test]
fn other_entries_are_deflated_and_preserved() {
    let src = make_epub("Old");
    let out = run_edit(&src, &book("Old", "S", None, 0));
    let mut a = zip::ZipArchive::new(Cursor::new(out)).unwrap();
    let names: Vec<String> = (0..a.len())
        .map(|i| a.by_index(i).unwrap().name().to_string())
        .collect();
    assert_eq!(
        names,
        vec![
            "mimetype".to_string(),
            "OEBPS/content.opf".to_string(),
            "OEBPS/chapter1.xhtml".to_string()
        ]
    );
    let ch = a.by_name("OEBPS/chapter1.xhtml").unwrap();
    assert_eq!(ch.compression(), zip::CompressionMethod::Deflated);
}

#[test]
fn metadata_is_patched_with_the_resolved_format() {
    let src = make_epub("Old Title");
    let out = run_edit(
        &src,
        &book("Old Title", "Foo", Some("${series} (${position}) - ${title}"), 0),
    );
    let doc = entry_data(&out, "OEBPS/content.opf");
    assert_eq!(doc, opf_text("Foo (01) - Old Title").into_bytes());
}

#[test]
fn round_trip_with_no_op_format_is_byte_identical_metadata() {
    // A format string that reproduces the original title exactly leaves the
    // repackaged archive's content.opf byte-identical to the original.
    let src = make_epub("Same Title");
    let original = entry_data(&src, "OEBPS/content.opf");
    let out = run_edit(&src, &book("Same Title", "S", Some("${title}"), 0));
    let doc = entry_data(&out, "OEBPS/content.opf");
    assert_eq!(doc, original);
}

#[test]
fn book_without_format_leaves_metadata_untouched() {
    let src = make_epub("Keep Me");
    let original = entry_data(&src, "OEBPS/content.opf");
    let out = run_edit(&src, &book("ignored", "ignored", None, 0));
    let doc = entry_data(&out, "OEBPS/content.opf");
    assert_eq!(doc, original);
}

#[test]
fn missing_metadata_document_is_reported() {
    let mut w = zip::ZipWriter::new(Cursor::new(Vec::new()));
    let stored = zip::write::SimpleFileOptions::default()
        .compression_method(zip::CompressionMethod::Stored);
    w.start_file("mimetype", stored).unwrap();
    w.write_all(b"application/epub+zip").unwrap();
    let src = w.finish().unwrap().into_inner();
    let entries = read_archive(src).unwrap();
    let r = edit_entries(entries, &book("T", "S", Some("${title}"), 0));
    assert!(matches!(r, Err(EditError::MetadataNotFound)));
}

#[test]
fn unknown_placeholder_aborts_the_edit() {
    let src = make_epub("Old");
    let entries = read_archive(src).unwrap();
    let r = edit_entries(entries, &book("Old", "S", Some("${bogus}"), 0));
    match r {
        Err(EditError::UnknownPlaceholder(name)) => assert_eq!(name, "bogus"),
        _ => panic!("expected an unknown-placeholder error"),
    }
}

#[test]
fn unreadable_bytes_are_an_io_error() {
    let r = read_archive(b"this is not an archive".to_vec());
    assert!(matches!(r, Err(EditError::IoError)));
}

#[test]
fn read_archive_returns_decompressed_entry_bytes() {
    let src = make_epub("Old");
    let entries = read_archive(src).unwrap();
    let opf = entries
        .iter()
        .find(|e| e.name == "OEBPS/content.opf")
        .unwrap();
    assert_eq!(opf.data, opf_text("Old").into_bytes());
    assert!(!opf.stored);
    let mime = entries.iter().find(|e| e.name == "mimetype").unwrap();
    assert!(mime.stored);
}

#[test]
fn rebuild_rejects_a_name_the_container_would_mangle() {
    let entries = vec![ArchiveEntry {
        name: "bad\u{1}name".to_string(),
        data: b"x".to_vec(),
        stored: false,
    }];
    let r = rebuild_archive(&entries);
    assert!(matches!(r, Err(EditError::IoError)));
}

#[test]
fn rebuild_rejects_a_repeated_entry_name() {
    let entries = vec![
        ArchiveEntry { name: "a.txt".to_string(), data: b"1".to_vec(), stored: false },
        ArchiveEntry { name: "a.txt".to_string(), data: b"2".to_vec(), stored: false },
    ];
    let r = rebuild_archive(&entries);
    assert!(matches!(r, Err(EditError::IoError)));
}
