use ebook_meta_editor::model::{Model, PathEntry};
use ebook_meta_editor::update::{handle_key, parent_dir, Direction, EventMessage, Key};

fn entry(path: &str, is_dir: bool) -> PathEntry {
    PathEntry { path: path.to_string(), is_dir }
}

#[test]
fn listing_keeps_directories_first_then_archives() {
    let m = Model::new();
    let raw = vec![
        entry("/lib/a.epub", false),
        entry("/lib/notes.txt", false),
        entry("/lib/sub", true),
        entry("/lib/b.epub", false),
        entry("/lib/other", true),
    ];
    let out = m.get_current_file_list(&raw);
    let paths: Vec<&str> = out.iter().map(|p| p.path.as_str()).collect();
    assert_eq!(paths, vec!["/lib/sub", "/lib/other", "/lib/a.epub", "/lib/b.epub"]);
}

#[test]
fn listing_drops_hidden_entries() {
    let m = Model::new();
    let raw = vec![
        entry("/lib/.hidden", true),
        entry("/lib/.secret.epub", false),
        entry("/lib/ok.epub", false),
    ];
    let out = m.get_current_file_list(&raw);
    let paths: Vec<&str> = out.iter().map(|p| p.path.as_str()).collect();
    assert_eq!(paths, vec!["/lib/ok.epub"]);
}

#[test]
fn parent_directory_walks_up_one_level() {
    assert_eq!(parent_dir("/a/b").as_deref(), Some("/a"));
    assert_eq!(parent_dir("/a").as_deref(), Some("/"));
    assert_eq!(parent_dir("/"), None);
    assert_eq!(parent_dir("plain"), None);
}

#[test]
fn quit_keys_work_everywhere() {
    let m = Model::new();
    assert!(matches!(handle_key(&m, Key::Char('q'), false), Some(EventMessage::Quit)));
    assert!(matches!(handle_key(&m, Key::Esc, false), Some(EventMessage::Quit)));
    assert!(matches!(handle_key(&m, Key::Char('c'), true), Some(EventMessage::Quit)));
}

#[test]
fn control_arrows_change_pages() {
    let m = Model::new();
    assert!(matches!(
        handle_key(&m, Key::Right, true),
        Some(EventMessage::ChangePage(Direction::Next))
    ));
    assert!(matches!(
        handle_key(&m, Key::Left, true),
        Some(EventMessage::ChangePage(Direction::Previous))
    ));
    assert!(handle_key(&m, Key::Down, false).is_none());
}

#[test]
fn series_page_arrows_adjust_the_counter() {
    let mut m = Model::new();
    ebook_meta_editor::update::update(&mut m, EventMessage::ChangePage(Direction::Next));
    assert!(matches!(
        handle_key(&m, Key::Left, false),
        Some(EventMessage::SetSeriesCounter(-1))
    ));
    assert!(matches!(
        handle_key(&m, Key::Right, false),
        Some(EventMessage::SetSeriesCounter(1))
    ));
}

#[test]
fn digit_keys_target_zero_based_positions() {
    let mut m = Model::new();
    ebook_meta_editor::update::update(&mut m, EventMessage::ChangePage(Direction::Next));
    ebook_meta_editor::update::update(&mut m, EventMessage::ChangePage(Direction::Next));
    m.supply_listing(0, vec![entry("/b/a.epub", false)]);
    ebook_meta_editor::update::update(&mut m, EventMessage::SelectFile(Some("T".to_string())));
    ebook_meta_editor::update::update(&mut m, EventMessage::ChangePage(Direction::Next));
    // Now on the book-data page; cycle to the order table.
    ebook_meta_editor::update::update(&mut m, EventMessage::ChangeField);
    ebook_meta_editor::update::update(&mut m, EventMessage::ChangeField);
    assert!(matches!(
        handle_key(&m, Key::Char('3'), false),
        Some(EventMessage::ChangeBookPosition(2))
    ));
    assert!(matches!(
        handle_key(&m, Key::Char('0'), false),
        Some(EventMessage::ChangeBookPosition(0))
    ));
    assert!(matches!(
        handle_key(&m, Key::Up, true),
        Some(EventMessage::SwapBook(Direction::Previous))
    ));
}

#[test]
fn right_arrow_enters_the_highlighted_directory_only() {
    let mut m = Model::new();
    ebook_meta_editor::update::update(
        &mut m,
        EventMessage::ChangePage(Direction::Next),
    );
    ebook_meta_editor::update::update(
        &mut m,
        EventMessage::ChangePage(Direction::Next),
    );
    // Enter a concrete directory first: fresh units start on the relative
    // working directory, which has no parent to walk up to.
    ebook_meta_editor::update::update(
        &mut m,
        EventMessage::ChangeDirectory("/lib".to_string()),
    );
    m.supply_listing(0, vec![entry("/lib/sub", true), entry("/lib/a.epub", false)]);
    match handle_key(&m, Key::Right, false) {
        Some(EventMessage::ChangeDirectory(p)) => assert_eq!(p, "/lib/sub"),
        _ => panic!("expected a directory change"),
    }
    // On a file the key does nothing.
    ebook_meta_editor::update::update(&mut m, EventMessage::NextFile);
    assert!(handle_key(&m, Key::Right, false).is_none());
    // Left walks up from the picker's current directory.
    match handle_key(&m, Key::Left, false) {
        Some(EventMessage::ChangeDirectory(p)) => assert_eq!(p, "/"),
        _ => panic!("expected a directory change"),
    }
}
