use ebook_meta_editor::patch::{patch_metadata, patch_sort, patch_title};

const DOC: &str = "<?xml version=\"1.0\"?>\n<package>\n  <metadata>\n    <dc:title>Old Title</dc:title>\n    <meta name=\"calibre:title_sort\" content=\"Old Title\"/>\n    <dc:creator>Someone</dc:creator>\n  </metadata>\n</package>\n";

#[test]
fn patches_title_and_sort_with_the_same_value() {
    let out = patch_metadata(DOC.as_bytes(), b"New Name");
    let expected = DOC.replace("Old Title", "New Name");
    assert_eq!(out, expected.as_bytes().to_vec());
}

#[test]
fn title_patch_touches_only_the_title_region() {
    let out = patch_title(DOC.as_bytes(), b"X");
    let expected = DOC.replace("<dc:title>Old Title</dc:title>", "<dc:title>X</dc:title>");
    assert_eq!(out, expected.as_bytes().to_vec());
}

#[test]
fn sort_patch_touches_only_the_content_value() {
    let out = patch_sort(DOC.as_bytes(), b"X");
    let expected = DOC.replace("content=\"Old Title\"/>", "content=\"X\"/>");
    assert_eq!(out, expected.as_bytes().to_vec());
}

#[test]
fn missing_title_marks_are_a_no_op() {
    let doc = b"<package><metadata></metadata></package>";
    let out = patch_metadata(doc, b"anything");
    assert_eq!(out, doc.to_vec());
}

#[test]
fn missing_sort_marks_leave_title_patch_alone() {
    let doc = b"<dc:title>Old</dc:title>";
    let out = patch_metadata(doc, b"New");
    assert_eq!(out, b"<dc:title>New</dc:title>".to_vec());
}

#[test]
fn empty_document_is_a_no_op() {
    let out = patch_metadata(b"", b"anything");
    assert_eq!(out, Vec::<u8>::new());
}

#[test]
fn no_op_equivalent_patch_is_byte_identical() {
    // Patching with the exact current value reproduces the document.
    let out = patch_metadata(DOC.as_bytes(), b"Old Title");
    assert_eq!(out, DOC.as_bytes().to_vec());
}
