use std::io::{Cursor, Read, Write};

use ebook_meta_editor::model::{Model, PathEntry};
use ebook_meta_editor::errors::EditError;
use ebook_meta_editor::update::{event_admissible, update, Direction, EventMessage, TableDirection};

fn file_entry(path: &str) -> PathEntry {
    PathEntry { path: path.to_string(), is_dir: false }
}

fn next_page(m: &mut Model) {
    update(m, EventMessage::ChangePage(Direction::Next));
}

/// Drives a fresh wizard to the file-selection page of series 0.
fn to_file_selection(series: i8) -> Model {
    let mut m = Model::new();
    next_page(&mut m); // Home -> SeriesData
    if series > 1 {
        update(&mut m, EventMessage::SetSeriesCounter(series - 1));
    }
    next_page(&mut m); // SeriesData -> FileSelection, units created
    m
}

fn select_file(m: &mut Model, title: &str) {
    update(m, EventMessage::SelectFile(Some(title.to_string())));
}

/// Types a series name, erasing the placeholder default first.
fn type_series_name(m: &mut Model, name: &str) {
    for _ in 0.."Placeholder title".len() {
        update(m, EventMessage::RemoveText);
    }
    for c in name.chars() {
        update(m, EventMessage::InputText(c));
    }
}

#[test]
fn initial_state_is_home_with_one_series() {
    let m = Model::new();
    assert!(m.running);
    assert_eq!(m.current_page, 0);
    assert_eq!(m.inputs.series_num, 1);
    assert_eq!(m.inputs.current_series_num, 0);
    assert!(m.inputs.file_lists.is_empty());
    assert!(m.flattened.is_empty());
}

#[test]
fn quit_stops_the_wizard_from_any_page() {
    let mut m = Model::new();
    update(&mut m, EventMessage::Quit);
    assert!(!m.running);
}

#[test]
fn series_counter_clamps_to_its_range() {
    let mut m = Model::new();
    next_page(&mut m);
    update(&mut m, EventMessage::SetSeriesCounter(127));
    assert_eq!(m.inputs.series_num, 127);
    update(&mut m, EventMessage::SetSeriesCounter(127));
    assert_eq!(m.inputs.series_num, 127);
    update(&mut m, EventMessage::SetSeriesCounter(-128));
    assert_eq!(m.inputs.series_num, 1);
    update(&mut m, EventMessage::SetSeriesCounter(-1));
    assert_eq!(m.inputs.series_num, 1);
}

#[test]
fn leaving_series_count_creates_the_units() {
    let m = to_file_selection(3);
    assert_eq!(m.current_page, 2);
    assert_eq!(m.inputs.file_lists.len(), 3);
    assert!(m.inputs.file_lists.iter().all(|u| u.books.is_empty() && !u.listed));
}

#[test]
fn blocked_advance_with_no_selection_changes_nothing() {
    let mut m = to_file_selection(1);
    m.supply_listing(0, vec![file_entry("/b/a.epub")]);
    next_page(&mut m);
    assert_eq!(m.current_page, 2, "the wizard must stay on file selection");
    assert_eq!(m.inputs.current_series_num, 0);
    assert!(m.inputs.file_lists[0].books.is_empty());
    assert_eq!(m.inputs.file_lists[0].cursor, Some(0));
    assert!(!m.inputs.file_lists[0].fields_ready);
}

#[test]
fn selecting_a_file_records_path_and_declared_title() {
    let mut m = to_file_selection(1);
    m.supply_listing(0, vec![file_entry("/b/a.epub"), file_entry("/b/b.epub")]);
    select_file(&mut m, "Alpha");
    let u = &m.inputs.file_lists[0];
    assert_eq!(u.books.len(), 1);
    assert_eq!(u.books[0].path, "/b/a.epub");
    assert_eq!(u.books[0].title, "Alpha");
    assert_eq!(u.cursor, Some(1), "the highlight advances after a toggle");
}

#[test]
fn selecting_the_same_file_again_deselects_it() {
    let mut m = to_file_selection(1);
    m.supply_listing(0, vec![file_entry("/b/a.epub"), file_entry("/b/b.epub")]);
    select_file(&mut m, "Alpha");
    update(&mut m, EventMessage::PreviousFile);
    select_file(&mut m, "Alpha");
    assert!(m.inputs.file_lists[0].books.is_empty());
}

#[test]
fn picker_cursor_wraps_in_both_directions() {
    let mut m = to_file_selection(1);
    m.supply_listing(0, vec![file_entry("/b/a.epub"), file_entry("/b/b.epub")]);
    assert_eq!(m.inputs.file_lists[0].cursor, Some(0));
    update(&mut m, EventMessage::PreviousFile);
    assert_eq!(m.inputs.file_lists[0].cursor, Some(1));
    update(&mut m, EventMessage::NextFile);
    assert_eq!(m.inputs.file_lists[0].cursor, Some(0));
}

#[test]
fn changing_directory_awaits_a_new_listing() {
    let mut m = to_file_selection(1);
    m.supply_listing(0, vec![file_entry("/b/a.epub")]);
    update(&mut m, EventMessage::ChangeDirectory("/b/sub".to_string()));
    let u = &m.inputs.file_lists[0];
    assert_eq!(u.current_directory, "/b/sub");
    assert!(u.items.is_empty());
    assert!(!u.listed);
    assert_eq!(u.cursor, None);
}

#[test]
fn first_advance_materializes_default_fields() {
    let mut m = to_file_selection(1);
    m.supply_listing(0, vec![file_entry("/b/a.epub")]);
    select_file(&mut m, "Alpha");
    next_page(&mut m);
    assert_eq!(m.current_page, 3);
    let u = &m.inputs.file_lists[0];
    assert!(u.fields_ready);
    assert_eq!(u.series_name, "Placeholder title");
    assert_eq!(u.format, "${series} (${position}) - ${title}");
}

/// Sets up one series with five selected books titled T0..T4.
fn five_book_series() -> Model {
    let mut m = to_file_selection(1);
    let paths: Vec<PathEntry> = (0..5).map(|i| file_entry(&format!("/b/p{}.epub", i))).collect();
    m.supply_listing(0, paths);
    for i in 0..5 {
        select_file(&mut m, &format!("T{}", i));
    }
    next_page(&mut m); // -> BookData
    update(&mut m, EventMessage::ChangeField); // Series -> Format
    update(&mut m, EventMessage::ChangeField); // Format -> BookOrder
    m
}

#[test]
fn moving_row_two_to_the_top_shifts_the_first_two_down() {
    let mut m = five_book_series();
    update(&mut m, EventMessage::ChangeTableField(TableDirection::NextRow));
    update(&mut m, EventMessage::ChangeTableField(TableDirection::NextRow));
    update(&mut m, EventMessage::ChangeTableField(TableDirection::NextRow));
    assert_eq!(m.inputs.file_lists[0].table_row, Some(2));
    update(&mut m, EventMessage::ChangeBookPosition(0));
    let u = &m.inputs.file_lists[0];
    let titles: Vec<&str> = u.books.iter().map(|b| b.title.as_str()).collect();
    let paths: Vec<&str> = u.books.iter().map(|b| b.path.as_str()).collect();
    assert_eq!(titles, vec!["T2", "T0", "T1", "T3", "T4"]);
    assert_eq!(
        paths,
        vec!["/b/p2.epub", "/b/p0.epub", "/b/p1.epub", "/b/p3.epub", "/b/p4.epub"],
        "paths and titles must stay in lock-step"
    );
    assert_eq!(u.table_row, Some(0));
}

#[test]
fn swapping_moves_the_highlight_with_the_book() {
    let mut m = five_book_series();
    update(&mut m, EventMessage::ChangeTableField(TableDirection::NextRow));
    update(&mut m, EventMessage::SwapBook(Direction::Next));
    let u = &m.inputs.file_lists[0];
    let titles: Vec<&str> = u.books.iter().map(|b| b.title.as_str()).collect();
    assert_eq!(titles, vec!["T1", "T0", "T2", "T3", "T4"]);
    assert_eq!(u.table_row, Some(1));
}

#[test]
fn typing_edits_the_series_name() {
    let mut m = to_file_selection(1);
    m.supply_listing(0, vec![file_entry("/b/a.epub")]);
    select_file(&mut m, "Alpha");
    next_page(&mut m);
    type_series_name(&mut m, "Foo");
    assert_eq!(m.inputs.file_lists[0].series_name, "Foo");
}

fn opf_text(title: &str) -> String {
    format!(
        "<package>\n<dc:title>{}</dc:title>\n<meta name=\"calibre:title_sort\" content=\"{}\"/>\n</package>",
        title, title
    )
}

fn make_epub(title: &str) -> Vec<u8> {
    let mut w = zip::ZipWriter::new(Cursor::new(Vec::new()));
    let stored = zip::write::SimpleFileOptions::default()
        .compression_method(zip::CompressionMethod::Stored);
    let deflated = zip::write::SimpleFileOptions::default()
        .compression_method(zip::CompressionMethod::Deflated);
    w.start_file("mimetype", stored).unwrap();
    w.write_all(b"application/epub+zip").unwrap();
    w.start_file("content.opf", deflated).unwrap();
    w.write_all(opf_text(title).as_bytes()).unwrap();
    w.finish().unwrap().into_inner()
}

fn read_title_doc(bytes: &[u8]) -> String {
    let mut a = zip::ZipArchive::new(Cursor::new(bytes.to_vec())).unwrap();
    let mut f = a.by_name("content.opf").unwrap();
    let mut s = String::new();
    f.read_to_string(&mut s).unwrap();
    s
}

#[test]
fn end_to_end_two_series_batch() {
    let mut m = Model::new();
    next_page(&mut m); // SeriesData
    update(&mut m, EventMessage::SetSeriesCounter(1)); // two series
    assert_eq!(m.inputs.series_num, 2);
    next_page(&mut m); // FileSelection(0)
    assert_eq!(m.inputs.file_lists.len(), 2);

    m.supply_listing(0, vec![file_entry("/b/one.epub")]);
    select_file(&mut m, "Alpha");
    next_page(&mut m); // BookData(0)
    type_series_name(&mut m, "Foo");
    next_page(&mut m); // FileSelection(1)
    assert_eq!(m.current_page, 2);
    assert_eq!(m.inputs.current_series_num, 1);

    m.supply_listing(1, vec![file_entry("/b/two.epub")]);
    select_file(&mut m, "Beta");
    next_page(&mut m); // BookData(1)
    type_series_name(&mut m, "Foo");
    next_page(&mut m); // Loading: worklist built

    assert_eq!(m.current_page, 4);
    assert_eq!(m.flattened.len(), 2, "one worklist row per selected book");
    assert_eq!(m.flattened[0].path, "/b/one.epub");
    assert_eq!(m.flattened[1].path, "/b/two.epub");
    assert_eq!(m.flattened[0].series, "Foo");
    assert_eq!(m.flattened[0].format.as_deref(), Some("${series} (${position}) - ${title}"));
    assert_eq!(m.current_book, 0);

    let out0 = m.edit_epub(make_epub("Alpha")).unwrap();
    assert_eq!(read_title_doc(&out0), opf_text("Foo (01) - Alpha"));
    m.mark_book_done();
    assert_eq!(m.finished_count, 1);
    assert_eq!(m.current_book, 1);

    let out1 = m.edit_epub(make_epub("Beta")).unwrap();
    assert_eq!(read_title_doc(&out1), opf_text("Foo (01) - Beta"));
    m.mark_book_done();
    assert_eq!(m.finished_count, 2);
    assert_eq!(m.current_book, 1, "the cursor clamps to the last row");
}

#[test]
fn failed_edit_leaves_the_book_pending() {
    let mut m = to_file_selection(1);
    m.supply_listing(0, vec![file_entry("/b/a.epub")]);
    select_file(&mut m, "Alpha");
    next_page(&mut m); // BookData
    next_page(&mut m); // Loading
    assert_eq!(m.flattened.len(), 1);
    let r = m.edit_epub(b"not an archive".to_vec());
    assert!(matches!(r, Err(EditError::IoError)));
    // Completion is recorded only after the rewrite reached the disk, so a
    // failed edit never advances the cursor.
    assert_eq!(m.finished_count, 0);
    assert_eq!(m.current_book, 0);
}

#[test]
fn navigation_wraps_from_the_apply_page_to_home() {
    let mut m = to_file_selection(1);
    m.supply_listing(0, vec![file_entry("/b/a.epub")]);
    select_file(&mut m, "Alpha");
    next_page(&mut m); // BookData
    next_page(&mut m); // Loading
    assert_eq!(m.current_page, 4);
    next_page(&mut m); // wraps to Home
    assert_eq!(m.current_page, 0);
}

#[test]
fn going_back_from_file_selection_revisits_the_previous_series() {
    let mut m = Model::new();
    next_page(&mut m); // SeriesData
    update(&mut m, EventMessage::SetSeriesCounter(1)); // two series
    next_page(&mut m); // FileSelection(0)
    m.supply_listing(0, vec![file_entry("/b/one.epub")]);
    select_file(&mut m, "Alpha");
    next_page(&mut m); // BookData(0)
    next_page(&mut m); // FileSelection(1)
    assert_eq!((m.current_page, m.inputs.current_series_num), (2, 1));
    update(&mut m, EventMessage::ChangePage(Direction::Previous));
    assert_eq!(
        (m.current_page, m.inputs.current_series_num),
        (3, 0),
        "going back from a later series lands on the previous series' book data"
    );
}

#[test]
fn typing_in_the_title_cell_edits_the_highlighted_book() {
    let mut m = five_book_series();
    update(&mut m, EventMessage::ChangeTableField(TableDirection::NextRow));
    update(&mut m, EventMessage::ChangeTableField(TableDirection::NextCol));
    assert_eq!(m.inputs.file_lists[0].table_col, 1);
    update(&mut m, EventMessage::InputText('!'));
    assert_eq!(m.inputs.file_lists[0].books[0].title, "T0!");
    update(&mut m, EventMessage::RemoveText);
    update(&mut m, EventMessage::RemoveText);
    assert_eq!(m.inputs.file_lists[0].books[0].title, "T");
    // Outside the title cell, typing does not touch the books.
    update(&mut m, EventMessage::ChangeTableField(TableDirection::PreviousCol));
    update(&mut m, EventMessage::InputText('x'));
    assert_eq!(m.inputs.file_lists[0].books[0].title, "T");
}

#[test]
fn inadmissible_events_are_reported_as_such() {
    let m = Model::new();
    assert!(event_admissible(&m, &EventMessage::Quit));
    assert!(event_admissible(&m, &EventMessage::ChangePage(Direction::Next)));
    assert!(!event_admissible(&m, &EventMessage::NextFile));
    assert!(!event_admissible(&m, &EventMessage::SetSeriesCounter(1)));
}

#[test]
fn error_messages_name_the_failure() {
    assert!(EditError::MetadataNotFound.message().contains("content.opf"));
    assert!(!EditError::IoError.message().is_empty());
}
