//! The wizard's reducer: one state transition per event, specified as a
//! transition relation over the model and proved to preserve the model's
//! invariant.

use vstd::prelude::*;
use vstd::utf8::{decode_utf8_encode_utf8, encode_utf8};

use crate::model::{
    cursor_next_spec, cursor_prev_spec, flatten_units, Book, FileList, Input, InputField, Model,
    TABLE_COLS,
};
use crate::search::{find_last_byte, last_idx, sub_to_vec};
use crate::strconv::bytes_to_string;
use crate::substitute::lemma_valid_cut_after_ascii;

verus! {

/// Paging direction.
#[derive(Clone, Copy, PartialEq, Eq, Structural)]
pub enum Direction {
    Previous,
    Next,
}

/// Movement inside the book-order table.
#[derive(Clone, Copy, PartialEq, Eq, Structural)]
pub enum TableDirection {
    PreviousCol,
    NextCol,
    PreviousRow,
    NextRow,
}

/// The wizard's events. The shell decodes keys into these and supplies the
/// values that only it can know: the declared title of a newly selected
/// archive, and the target path of a directory change.
pub enum EventMessage {
    /// Change the current page.
    ChangePage(Direction),
    /// Quit the wizard.
    Quit,
    /// Add to the number of series being edited.
    SetSeriesCounter(i8),
    /// Highlight the next file in the picker.
    NextFile,
    /// Highlight the previous file in the picker.
    PreviousFile,
    /// Toggle selection of the highlighted file; the payload is the
    /// archive's own declared title, used when the toggle selects.
    SelectFile(Option<String>),
    /// Change the picker's directory; the shell then supplies the listing.
    ChangeDirectory(String),
    /// Cycle the field being edited.
    ChangeField,
    /// Move the book-order table's highlight.
    ChangeTableField(TableDirection),
    /// Type one character into the edited field.
    InputText(char),
    /// Erase one character from the edited field.
    RemoveText,
    /// Swap the highlighted book with its neighbour.
    SwapBook(Direction),
    /// Move the highlighted book to the given 0-based position.
    ChangeBookPosition(usize),
}

/// Which events the shell may hand the reducer in a given state: the
/// page-specific ones only on their page.
pub open spec fn event_ok(m: Model, msg: EventMessage) -> bool {
    let p = m.current_page as int;
    match msg {
        EventMessage::ChangePage(_) => true,
        EventMessage::Quit => true,
        EventMessage::SetSeriesCounter(_) => p == 1,
        EventMessage::NextFile => p == 2,
        EventMessage::PreviousFile => p == 2,
        EventMessage::SelectFile(_) => p == 2,
        EventMessage::ChangeDirectory(_) => p == 2,
        EventMessage::ChangeField => p == 3,
        EventMessage::ChangeTableField(_) => p == 3,
        EventMessage::InputText(_) => p == 3,
        EventMessage::RemoveText => p == 3,
        EventMessage::SwapBook(_) => p == 3,
        EventMessage::ChangeBookPosition(_) => p == 3,
    }
}

/// `m2` equals `m` on everything but the series units.
pub open spec fn same_shell(m: Model, m2: Model) -> bool {
    &&& m2.running == m.running
    &&& m2.current_page == m.current_page
    &&& m2.inputs.series_num == m.inputs.series_num
    &&& m2.inputs.current_series_num == m.inputs.current_series_num
    &&& m2.inputs.currently_editing == m.inputs.currently_editing
    &&& m2.flattened@ == m.flattened@
    &&& m2.finished_count == m.finished_count
    &&& m2.current_book == m.current_book
}

/// `m2` is `m` with the current series unit replaced by `u2`.
pub open spec fn unit_step(m: Model, m2: Model, u2: FileList) -> bool {
    &&& same_shell(m, m2)
    &&& m2.inputs.file_lists@ == m.inputs.file_lists@.update(
        m.inputs.current_series_num as int,
        u2,
    )
}

/// The current series unit.
pub open spec fn cur_unit(m: Model) -> FileList {
    m.inputs.file_lists@[m.inputs.current_series_num as int]
}

/// The series count clamped to the valid range.
pub open spec fn clamp_series(x: int) -> i8 {
    if x < 1 {
        1i8
    } else if x > 127 {
        127i8
    } else {
        x as i8
    }
}

/// The next field in the tab cycle.
pub open spec fn cycle_field(f: InputField) -> InputField {
    match f {
        InputField::Series => InputField::Format,
        InputField::Format => InputField::BookOrder,
        InputField::BookOrder => InputField::Series,
        InputField::BookTitle => InputField::BookTitle,
    }
}

/// A table highlight clamped to a books list of length `len`.
pub open spec fn row_clamp(len: int, r: Option<usize>) -> Option<usize> {
    match r {
        None => None,
        Some(i) => if len == 0 {
            None
        } else if i as int >= len {
            Some((len - 1) as usize)
        } else {
            Some(i)
        },
    }
}

/// The table highlight one row down, clamped to the last row.
pub open spec fn row_next(len: int, r: Option<usize>) -> Option<usize>
    recommends
        len >= 1,
{
    match r {
        None => Some(0usize),
        Some(i) => if i as int + 1 >= len {
            Some((len - 1) as usize)
        } else {
            Some((i + 1) as usize)
        },
    }
}

/// The table highlight one row up, from the bottom when none is set.
pub open spec fn row_prev(len: int, r: Option<usize>) -> Option<usize>
    recommends
        len >= 1,
{
    match r {
        None => Some((len - 1) as usize),
        Some(i) => if i == 0 {
            Some(0usize)
        } else {
            Some((i - 1) as usize)
        },
    }
}

/// Whether some selected book of the series points at path `p`.
pub open spec fn contains_path(books: Seq<Book>, p: Seq<char>) -> bool {
    exists|j: int| 0 <= j < books.len() && (#[trigger] books[j]).path@ == p
}

/// Index of the first book pointing at `p`, from `i` on, or `-1`.
pub open spec fn book_idx_from(books: Seq<Book>, i: int, p: Seq<char>) -> int
    decreases books.len() - i,
{
    if i < 0 || i >= books.len() {
        -1
    } else if books[i].path@ == p {
        i
    } else {
        book_idx_from(books, i + 1, p)
    }
}

/// A unit with fresh picker/book state, as series creation makes it.
pub open spec fn fresh_unit(u: FileList) -> bool {
    &&& u.items@.len() == 0
    &&& u.cursor is None
    &&& !u.listed
    &&& u.current_directory@ == "."@
    &&& u.books@.len() == 0
    &&& !u.fields_ready
    &&& u.series_name@ == Seq::<char>::empty()
    &&& u.format@ == Seq::<char>::empty()
    &&& u.table_row is None
    &&& u.table_col == 0
}

/// The units after lazy creation: unchanged if enough exist, else extended
/// with fresh units up to the chosen count.
pub open spec fn grown_units(m: Model, us2: Seq<FileList>) -> bool {
    let units = m.inputs.file_lists@;
    let count = m.inputs.series_num as int;
    if count <= units.len() {
        us2 == units
    } else {
        &&& us2.len() == count
        &&& us2.subrange(0, units.len() as int) == units
        &&& (forall|s: int| units.len() <= s < count ==> fresh_unit(#[trigger] us2[s]))
    }
}

/// The default values that first leaving file selection materializes.
pub open spec fn defaults_materialized(u: FileList, u2: FileList) -> bool {
    if u.fields_ready {
        u2 == u
    } else {
        u2 == (FileList { fields_ready: true, series_name: u2.series_name, format: u2.format, ..u })
            && u2.series_name@ == "Placeholder title"@ && u2.format@
            == "${series} (${position}) - ${title}"@
    }
}

/// The page-change transition relation.
pub open spec fn change_page_rel(m: Model, dir: Direction, m2: Model) -> bool {
    let p = m.current_page as int;
    let cs = m.inputs.current_series_num as int;
    let count = m.inputs.series_num as int;
    let units = m.inputs.file_lists@;
    if p == 1 {
        &&& grown_units(m, m2.inputs.file_lists@)
        &&& m2.running == m.running
        &&& m2.inputs.series_num == m.inputs.series_num
        &&& m2.inputs.current_series_num == m.inputs.current_series_num
        &&& m2.inputs.currently_editing == m.inputs.currently_editing
        &&& m2.flattened@ == m.flattened@
        &&& m2.finished_count == m.finished_count
        &&& m2.current_book == m.current_book
        &&& m2.current_page == (match dir {
            Direction::Previous => 0int,
            Direction::Next => 2int,
        })
    } else if p == 2 {
        match dir {
            Direction::Previous => {
                if cs == 0 {
                    m2 == (Model { current_page: 1usize, ..m })
                } else {
                    m2 == (Model {
                        current_page: 3usize,
                        inputs: Input {
                            current_series_num: (cs - 1) as usize,
                            ..m.inputs
                        },
                        ..m
                    })
                }
            },
            Direction::Next => {
                let u = units[cs];
                if u.books@.len() == 0 {
                    m2 == m
                } else {
                    &&& m2.running == m.running
                    &&& m2.current_page == 3
                    &&& m2.inputs.series_num == m.inputs.series_num
                    &&& m2.inputs.current_series_num == m.inputs.current_series_num
                    &&& m2.inputs.currently_editing == m.inputs.currently_editing
                    &&& m2.flattened@ == m.flattened@
                    &&& m2.finished_count == m.finished_count
                    &&& m2.current_book == m.current_book
                    &&& m2.inputs.file_lists@ == units.update(
                        cs,
                        m2.inputs.file_lists@[cs],
                    )
                    &&& defaults_materialized(u, m2.inputs.file_lists@[cs])
                }
            },
        }
    } else if p == 3 {
        match dir {
            Direction::Previous => m2 == (Model { current_page: 2usize, ..m }),
            Direction::Next => {
                if cs < count - 1 {
                    m2 == (Model {
                        current_page: 2usize,
                        inputs: Input {
                            current_series_num: (cs + 1) as usize,
                            ..m.inputs
                        },
                        ..m
                    })
                } else {
                    &&& m2.running == m.running
                    &&& m2.current_page == 4
                    &&& m2.inputs == m.inputs
                    &&& (if m.flattened@.len() == 0 {
                        m2.flattened@ == flatten_units(units, count) && m2.finished_count == 0
                            && m2.current_book == 0
                    } else {
                        m2.flattened@ == m.flattened@ && m2.finished_count == m.finished_count
                            && m2.current_book == m.current_book
                    })
                }
            },
        }
    } else {
        match dir {
            Direction::Previous => m2 == (Model {
                current_page: (if p == 0 {
                    0int
                } else {
                    p - 1
                }) as usize,
                ..m
            }),
            Direction::Next => m2 == (Model { current_page: ((p + 1) % 5) as usize, ..m }),
        }
    }
}

/// The file-toggle transition relation: the highlighted file joins the
/// series (with its declared title) or leaves it, and the picker highlight
/// advances either way.
pub open spec fn select_rel(m: Model, title: Option<String>, m2: Model) -> bool {
    let u = cur_unit(m);
    let u2 = cur_unit(m2);
    &&& unit_step(m, m2, u2)
    &&& u2.items@ == u.items@
    &&& u2.listed == u.listed
    &&& u2.current_directory == u.current_directory
    &&& u2.fields_ready == u.fields_ready
    &&& u2.series_name == u.series_name
    &&& u2.format == u.format
    &&& u2.table_col == u.table_col
    &&& u2.cursor == cursor_next_spec(u.items@.len() as int, u.cursor)
    &&& (match u.cursor {
        None => u2.books@ == u.books@ && u2.table_row == u.table_row,
        Some(ci) => {
            let e = u.items@[ci as int];
            if e.is_dir {
                u2.books@ == u.books@ && u2.table_row == u.table_row
            } else if contains_path(u.books@, e.path@) {
                let k = book_idx_from(u.books@, 0, e.path@);
                &&& u2.books@ == u.books@.remove(k)
                &&& u2.table_row == row_clamp(u2.books@.len() as int, u.table_row)
            } else {
                &&& u2.books@.len() == u.books@.len() + 1
                &&& u2.books@.subrange(0, u.books@.len() as int) == u.books@
                &&& u2.books@.last().path@ == e.path@
                &&& (match title {
                    Some(t) => u2.books@.last().title == t,
                    None => u2.books@.last().title@ == Seq::<char>::empty(),
                })
                &&& u2.table_row == u.table_row
            }
        },
    })
}

/// The text-edit transition relation: one character appended to (or
/// removed from) the edited field. In the book-order table only the title
/// cell takes text, and only while a row is highlighted.
pub open spec fn text_rel(m: Model, c: Option<char>, m2: Model) -> bool {
    let u = cur_unit(m);
    let u2 = cur_unit(m2);
    let edit = spec_edit_text(c);
    match m.inputs.currently_editing {
        InputField::Series => {
            &&& unit_step(m, m2, u2)
            &&& u2 == (FileList { series_name: u2.series_name, ..u })
            &&& u2.series_name@ == edit(u.series_name@)
        },
        InputField::Format => {
            &&& unit_step(m, m2, u2)
            &&& u2 == (FileList { format: u2.format, ..u })
            &&& u2.format@ == edit(u.format@)
        },
        InputField::BookOrder => {
            match u.table_row {
                Some(r) => if u.table_col == 1 {
                    &&& unit_step(m, m2, u2)
                    &&& u2 == (FileList { books: u2.books, ..u })
                    &&& u2.books@ == u.books@.update(
                        r as int,
                        Book { path: u.books@[r as int].path, title: u2.books@[r as int].title },
                    )
                    &&& u2.books@[r as int].title@ == edit(u.books@[r as int].title@)
                } else {
                    m2 == m
                },
                None => m2 == m,
            }
        },
        InputField::BookTitle => m2 == m,
    }
}

/// Appending a character, or removing the last one.
pub open spec fn spec_edit_text(c: Option<char>) -> spec_fn(Seq<char>) -> Seq<char> {
    match c {
        Some(ch) => |s: Seq<char>| s.push(ch),
        None => |s: Seq<char>|
            if s.len() == 0 {
                s
            } else {
                s.drop_last()
            },
    }
}

/// The table-highlight transition relation.
pub open spec fn table_rel(m: Model, td: TableDirection, m2: Model) -> bool {
    let u = cur_unit(m);
    let u2 = cur_unit(m2);
    let len = u.books@.len() as int;
    match td {
        TableDirection::PreviousCol => {
            if u.table_row is Some {
                unit_step(m, m2, u2) && u2 == (FileList {
                    table_col: (if u.table_col == 0 {
                        0int
                    } else {
                        u.table_col - 1
                    }) as usize,
                    ..u
                })
            } else {
                m2 == m
            }
        },
        TableDirection::NextCol => {
            if u.table_row is Some {
                unit_step(m, m2, u2) && u2 == (FileList {
                    table_col: (if u.table_col + 1 >= TABLE_COLS {
                        TABLE_COLS - 1
                    } else {
                        u.table_col + 1
                    }) as usize,
                    ..u
                })
            } else {
                m2 == m
            }
        },
        TableDirection::PreviousRow => unit_step(m, m2, u2) && u2 == (FileList {
            table_row: row_prev(len, u.table_row),
            ..u
        }),
        TableDirection::NextRow => unit_step(m, m2, u2) && u2 == (FileList {
            table_row: row_next(len, u.table_row),
            ..u
        }),
    }
}

/// A sequence with the elements at `i` and `j` exchanged.
pub open spec fn seq_swap<A>(s: Seq<A>, i: int, j: int) -> Seq<A> {
    s.update(i, s[j]).update(j, s[i])
}

/// The neighbour-swap transition relation: the highlighted book trades
/// places with the next or previous one, and the highlight follows it.
pub open spec fn swap_rel(m: Model, dir: Direction, m2: Model) -> bool {
    let u = cur_unit(m);
    let u2 = cur_unit(m2);
    let len = u.books@.len() as int;
    match u.table_row {
        None => m2 == m,
        Some(r) => match dir {
            Direction::Next => {
                if (r as int) < len - 1 {
                    &&& unit_step(m, m2, u2)
                    &&& u2 == (FileList {
                        books: u2.books,
                        table_row: Some((r + 1) as usize),
                        ..u
                    })
                    &&& u2.books@ == seq_swap(u.books@, r as int, r as int + 1)
                } else {
                    m2 == m
                }
            },
            Direction::Previous => {
                if r > 0 {
                    &&& unit_step(m, m2, u2)
                    &&& u2 == (FileList {
                        books: u2.books,
                        table_row: Some((r - 1) as usize),
                        ..u
                    })
                    &&& u2.books@ == seq_swap(u.books@, r as int - 1, r as int)
                } else {
                    m2 == m
                }
            },
        },
    }
}

/// The reorder transition relation: the highlighted book moves to the
/// target position; the books strictly between old and new position shift
/// by one slot, and no other book moves.
pub open spec fn move_rel(m: Model, new_index: usize, m2: Model) -> bool {
    let u = cur_unit(m);
    let u2 = cur_unit(m2);
    let len = u.books@.len() as int;
    match u.table_row {
        None => m2 == m,
        Some(r) => {
            if (new_index as int) < len {
                &&& unit_step(m, m2, u2)
                &&& u2 == (FileList { books: u2.books, table_row: Some(new_index), ..u })
                &&& u2.books@ == u.books@.remove(r as int).insert(
                    new_index as int,
                    u.books@[r as int],
                )
            } else {
                m2 == m
            }
        },
    }
}

/// The directory-change transition relation: the picker points at the new
/// directory with nothing listed yet; the shell supplies the listing next.
pub open spec fn chdir_rel(m: Model, path: String, m2: Model) -> bool {
    let u = cur_unit(m);
    let u2 = cur_unit(m2);
    &&& unit_step(m, m2, u2)
    &&& u2 == (FileList {
        items: u2.items,
        cursor: None,
        listed: false,
        current_directory: path,
        ..u
    })
    &&& u2.items@.len() == 0
}

/// The wizard's full transition relation: what `update` does for each
/// event.
pub open spec fn update_rel(m: Model, msg: EventMessage, m2: Model) -> bool {
    match msg {
        EventMessage::Quit => m2 == (Model { running: false, ..m }),
        EventMessage::ChangePage(dir) => change_page_rel(m, dir, m2),
        EventMessage::SetSeriesCounter(d) => m2 == (Model {
            inputs: Input {
                series_num: clamp_series(m.inputs.series_num as int + d as int),
                ..m.inputs
            },
            ..m
        }),
        EventMessage::NextFile => unit_step(m, m2, cur_unit(m2)) && cur_unit(m2) == (FileList {
            cursor: cursor_next_spec(cur_unit(m).items@.len() as int, cur_unit(m).cursor),
            ..cur_unit(m)
        }),
        EventMessage::PreviousFile => unit_step(m, m2, cur_unit(m2)) && cur_unit(m2) == (FileList {
            cursor: cursor_prev_spec(cur_unit(m).items@.len() as int, cur_unit(m).cursor),
            ..cur_unit(m)
        }),
        EventMessage::SelectFile(title) => select_rel(m, title, m2),
        EventMessage::ChangeDirectory(path) => chdir_rel(m, path, m2),
        EventMessage::ChangeField => m2 == (Model {
            inputs: Input {
                currently_editing: cycle_field(m.inputs.currently_editing),
                ..m.inputs
            },
            ..m
        }),
        EventMessage::ChangeTableField(td) => table_rel(m, td, m2),
        EventMessage::InputText(c) => text_rel(m, Some(c), m2),
        EventMessage::RemoveText => text_rel(m, None, m2),
        EventMessage::SwapBook(dir) => swap_rel(m, dir, m2),
        EventMessage::ChangeBookPosition(n) => move_rel(m, n, m2),
    }
}

/// A decoded key press, as the shell hands it in.
#[derive(Clone, Copy, PartialEq, Eq, Structural)]
pub enum Key {
    Char(char),
    Left,
    Right,
    Up,
    Down,
    Tab,
    Enter,
    Esc,
    Backspace,
    Other,
}

/// The UTF-8 bytes of the parent directory of an absolute path: the bytes
/// before the last `/`, the root for a direct child of the root, nothing
/// for the root itself or for a path with no separator.
pub open spec fn parent_bytes(b: Seq<u8>) -> Option<Seq<u8>> {
    let k = last_idx(b, 47);
    if k < 0 {
        None
    } else if k == 0 {
        if b.len() == 1 {
            None
        } else {
            Some(seq![47u8])
        }
    } else {
        Some(b.subrange(0, k))
    }
}

/// The parent directory of a path, when it has one.
pub fn parent_dir(s: &str) -> (r: Option<String>)
    ensures
        match r {
            Some(p) => parent_bytes(encode_utf8(s@)) == Some(encode_utf8(p@)),
            None => parent_bytes(encode_utf8(s@)) is None,
        },
{
    let b = s.as_bytes();
    match find_last_byte(b, 47) {
        None => None,
        Some(k) => {
            if k == 0 {
                if b.len() == 1 {
                    None
                } else {
                    let root = String::from_str("/");
                    proof {
                        reveal_strlit("/");
                        assert(vstd::utf8::is_ascii_chars(root@));
                        vstd::utf8::is_ascii_chars_encode_utf8(root@);
                        assert(encode_utf8(root@) =~= seq![47u8]);
                    }
                    Some(root)
                }
            } else {
                let pre = sub_to_vec(b, 0, k);
                proof {
                    vstd::utf8::encode_utf8_valid_utf8(s@);
                    lemma_valid_cut_after_ascii(encode_utf8(s@), k as int);
                }
                match bytes_to_string(pre) {
                    Some(p) => {
                        proof {
                            decode_utf8_encode_utf8(encode_utf8(s@).subrange(0, k as int));
                        }
                        Some(p)
                    },
                    None => {
                        proof {
                            assert(false);
                        }
                        None
                    },
                }
            }
        },
    }
}

/// The key bindings: what event, if any, a key press produces in a given
/// state. The payload of a directory change is pinned by its bytes (the
/// parent path is computed, not copied).
pub open spec fn key_rel(m: Model, key: Key, ctrl: bool, r: Option<EventMessage>) -> bool {
    let p = m.current_page as int;
    if key == Key::Char('q') || key == Key::Esc {
        r == Some(EventMessage::Quit)
    } else if ctrl && key == Key::Char('c') {
        r == Some(EventMessage::Quit)
    } else if ctrl && key == Key::Right {
        r == Some(EventMessage::ChangePage(Direction::Next))
    } else if ctrl && key == Key::Left {
        r == Some(EventMessage::ChangePage(Direction::Previous))
    } else if p == 1 {
        match key {
            Key::Left => r == Some(EventMessage::SetSeriesCounter(-1i8)),
            Key::Right => r == Some(EventMessage::SetSeriesCounter(1i8)),
            _ => r is None,
        }
    } else if p == 2 {
        let u = cur_unit(m);
        match key {
            Key::Down => r == Some(EventMessage::NextFile),
            Key::Up => r == Some(EventMessage::PreviousFile),
            Key::Tab => r == Some(EventMessage::SelectFile(None)),
            Key::Right => (match u.cursor {
                Some(ci) => {
                    if u.items@[ci as int].is_dir {
                        r == Some(EventMessage::ChangeDirectory(u.items@[ci as int].path))
                    } else {
                        r is None
                    }
                },
                None => r is None,
            }),
            Key::Left => (match r {
                Some(msg) => msg matches EventMessage::ChangeDirectory(p2) && parent_bytes(
                    encode_utf8(u.current_directory@),
                ) == Some(encode_utf8(p2@)),
                None => parent_bytes(encode_utf8(u.current_directory@)) is None,
            }),
            _ => r is None,
        }
    } else if p == 3 {
        if key == Key::Tab {
            r == Some(EventMessage::ChangeField)
        } else if m.inputs.currently_editing == InputField::BookOrder {
            let col = cur_unit(m).table_col;
            match key {
                Key::Up => r == Some(
                    if ctrl {
                        EventMessage::SwapBook(Direction::Previous)
                    } else {
                        EventMessage::ChangeTableField(TableDirection::PreviousRow)
                    },
                ),
                Key::Down => r == Some(
                    if ctrl {
                        EventMessage::SwapBook(Direction::Next)
                    } else {
                        EventMessage::ChangeTableField(TableDirection::NextRow)
                    },
                ),
                Key::Right => r == Some(EventMessage::ChangeTableField(TableDirection::NextCol)),
                Key::Left => r == Some(EventMessage::ChangeTableField(TableDirection::PreviousCol)),
                Key::Char(c) => {
                    if '0' <= c <= '9' && col != 1 {
                        r == Some(
                            EventMessage::ChangeBookPosition(
                                (if c == '0' {
                                    0int
                                } else {
                                    c as int - 49
                                }) as usize,
                            ),
                        )
                    } else if col == 1 {
                        r == Some(EventMessage::InputText(c))
                    } else {
                        r is None
                    }
                },
                Key::Backspace => {
                    if col == 1 {
                        r == Some(EventMessage::RemoveText)
                    } else {
                        r is None
                    }
                },
                _ => r is None,
            }
        } else {
            match key {
                Key::Backspace => r == Some(EventMessage::RemoveText),
                Key::Char(c) => r == Some(EventMessage::InputText(c)),
                _ => r is None,
            }
        }
    } else {
        r is None
    }
}

/// Decodes one key press into the event it is bound to in the current
/// state, if any. Every produced event is admissible for `update`.
pub fn handle_key(model: &Model, key: Key, ctrl: bool) -> (r: Option<EventMessage>)
    requires
        model.wf(),
    ensures
        key_rel(*model, key, ctrl, r),
        r matches Some(msg) ==> event_ok(*model, msg),
{
    let quit_char = match key {
        Key::Char(c) => c == 'q',
        Key::Esc => true,
        _ => false,
    };
    if quit_char {
        return Some(EventMessage::Quit);
    }
    if ctrl {
        match key {
            Key::Char(c) => {
                if c == 'c' {
                    return Some(EventMessage::Quit);
                }
            },
            Key::Right => {
                return Some(EventMessage::ChangePage(Direction::Next));
            },
            Key::Left => {
                return Some(EventMessage::ChangePage(Direction::Previous));
            },
            _ => {},
        }
    }
    let p = model.current_page;
    if p == 1 {
        match key {
            Key::Left => Some(EventMessage::SetSeriesCounter(-1)),
            Key::Right => Some(EventMessage::SetSeriesCounter(1)),
            _ => None,
        }
    } else if p == 2 {
        let cs = model.inputs.current_series_num;
        match key {
            Key::Down => Some(EventMessage::NextFile),
            Key::Up => Some(EventMessage::PreviousFile),
            Key::Tab => Some(EventMessage::SelectFile(None)),
            Key::Right => {
                match model.inputs.file_lists[cs].cursor {
                    Some(ci) => {
                        if model.inputs.file_lists[cs].items[ci].is_dir {
                            Some(
                                EventMessage::ChangeDirectory(
                                    model.inputs.file_lists[cs].items[ci].path.clone(),
                                ),
                            )
                        } else {
                            None
                        }
                    },
                    None => None,
                }
            },
            Key::Left => {
                match parent_dir(model.inputs.file_lists[cs].current_directory.as_str()) {
                    Some(parent) => Some(EventMessage::ChangeDirectory(parent)),
                    None => None,
                }
            },
            _ => None,
        }
    } else if p == 3 {
        match key {
            Key::Tab => Some(EventMessage::ChangeField),
            _ => {
                let cs = model.inputs.current_series_num;
                let is_order = match model.inputs.currently_editing {
                    InputField::BookOrder => true,
                    _ => false,
                };
                if is_order {
                    let col = model.inputs.file_lists[cs].table_col;
                    match key {
                        Key::Up => Some(
                            if ctrl {
                                EventMessage::SwapBook(Direction::Previous)
                            } else {
                                EventMessage::ChangeTableField(TableDirection::PreviousRow)
                            },
                        ),
                        Key::Down => Some(
                            if ctrl {
                                EventMessage::SwapBook(Direction::Next)
                            } else {
                                EventMessage::ChangeTableField(TableDirection::NextRow)
                            },
                        ),
                        Key::Right => Some(EventMessage::ChangeTableField(TableDirection::NextCol)),
                        Key::Left => Some(
                            EventMessage::ChangeTableField(TableDirection::PreviousCol),
                        ),
                        Key::Char(c) => {
                            if '0' <= c && c <= '9' && col != 1 {
                                let d = (c as u32 - 48) as usize;
                                let target = if d == 0 {
                                    0
                                } else {
                                    d - 1
                                };
                                Some(EventMessage::ChangeBookPosition(target))
                            } else if col == 1 {
                                Some(EventMessage::InputText(c))
                            } else {
                                None
                            }
                        },
                        Key::Backspace => {
                            if col == 1 {
                                Some(EventMessage::RemoveText)
                            } else {
                                None
                            }
                        },
                        _ => None,
                    }
                } else {
                    match key {
                        Key::Backspace => Some(EventMessage::RemoveText),
                        Key::Char(c) => Some(EventMessage::InputText(c)),
                        _ => None,
                    }
                }
            },
        }
    } else {
        None
    }
}

/// Whether the reducer accepts the event in the current state; the shell
/// tests this before calling `update`.
pub fn event_admissible(m: &Model, msg: &EventMessage) -> (r: bool)
    ensures
        r == event_ok(*m, *msg),
{
    match msg {
        EventMessage::ChangePage(_) => true,
        EventMessage::Quit => true,
        EventMessage::SetSeriesCounter(_) => m.current_page == 1,
        EventMessage::NextFile => m.current_page == 2,
        EventMessage::PreviousFile => m.current_page == 2,
        EventMessage::SelectFile(_) => m.current_page == 2,
        EventMessage::ChangeDirectory(_) => m.current_page == 2,
        EventMessage::ChangeField => m.current_page == 3,
        EventMessage::ChangeTableField(_) => m.current_page == 3,
        EventMessage::InputText(_) => m.current_page == 3,
        EventMessage::RemoveText => m.current_page == 3,
        EventMessage::SwapBook(_) => m.current_page == 3,
        EventMessage::ChangeBookPosition(_) => m.current_page == 3,
    }
}

fn on_next_file(m: &mut Model)
    requires
        old(m).wf(),
        old(m).current_page == 2,
    ensures
        final(m).wf(),
        update_rel(*old(m), EventMessage::NextFile, *final(m)),
{
    let cs = m.inputs.current_series_num;
    let len = m.inputs.file_lists[cs].items.len();
    let c = m.inputs.file_lists[cs].cursor;
    let c2: Option<usize> = if len == 0 {
        c
    } else {
        match c {
            None => Some(0),
            Some(i) => if i >= len - 1 {
                Some(0)
            } else {
                Some(i + 1)
            },
        }
    };
    m.inputs.file_lists[cs].cursor = c2;
    proof {
        assert(m.inputs.file_lists@ =~= old(m).inputs.file_lists@.update(cs as int, cur_unit(*m)));
        assert(cur_unit(*m) == (FileList {
            cursor: cursor_next_spec(cur_unit(*old(m)).items@.len() as int, cur_unit(*old(m)).cursor),
            ..cur_unit(*old(m))
        }));
    }
}

fn on_previous_file(m: &mut Model)
    requires
        old(m).wf(),
        old(m).current_page == 2,
    ensures
        final(m).wf(),
        update_rel(*old(m), EventMessage::PreviousFile, *final(m)),
{
    let cs = m.inputs.current_series_num;
    let len = m.inputs.file_lists[cs].items.len();
    let c = m.inputs.file_lists[cs].cursor;
    let c2: Option<usize> = if len == 0 {
        c
    } else {
        match c {
            None => Some(len - 1),
            Some(i) => if i == 0 {
                Some(len - 1)
            } else {
                Some(i - 1)
            },
        }
    };
    m.inputs.file_lists[cs].cursor = c2;
    proof {
        assert(m.inputs.file_lists@ =~= old(m).inputs.file_lists@.update(cs as int, cur_unit(*m)));
        assert(cur_unit(*m) == (FileList {
            cursor: cursor_prev_spec(cur_unit(*old(m)).items@.len() as int, cur_unit(*old(m)).cursor),
            ..cur_unit(*old(m))
        }));
    }
}

fn on_change_directory(m: &mut Model, path: String)
    requires
        old(m).wf(),
        old(m).current_page == 2,
    ensures
        final(m).wf(),
        chdir_rel(*old(m), path, *final(m)),
{
    let cs = m.inputs.current_series_num;
    m.inputs.file_lists[cs].items = Vec::new();
    m.inputs.file_lists[cs].cursor = None;
    m.inputs.file_lists[cs].listed = false;
    m.inputs.file_lists[cs].current_directory = path;
    proof {
        assert(m.inputs.file_lists@ =~= old(m).inputs.file_lists@.update(cs as int, cur_unit(*m)));
    }
}

fn on_change_table_field(m: &mut Model, td: TableDirection)
    requires
        old(m).wf(),
        old(m).current_page == 3,
    ensures
        final(m).wf(),
        table_rel(*old(m), td, *final(m)),
{
    let cs = m.inputs.current_series_num;
    let len = m.inputs.file_lists[cs].books.len();
    let row = m.inputs.file_lists[cs].table_row;
    let col = m.inputs.file_lists[cs].table_col;
    proof {
        assert(cur_unit(*old(m)).books@.len() >= 1);
    }
    match td {
        TableDirection::PreviousCol => {
            if row.is_some() {
                m.inputs.file_lists[cs].table_col = if col == 0 {
                    0
                } else {
                    col - 1
                };
                proof {
                    assert(m.inputs.file_lists@ =~= old(m).inputs.file_lists@.update(
                        cs as int,
                        cur_unit(*m),
                    ));
                }
            }
        },
        TableDirection::NextCol => {
            if row.is_some() {
                m.inputs.file_lists[cs].table_col = if col + 1 >= TABLE_COLS {
                    TABLE_COLS - 1
                } else {
                    col + 1
                };
                proof {
                    assert(m.inputs.file_lists@ =~= old(m).inputs.file_lists@.update(
                        cs as int,
                        cur_unit(*m),
                    ));
                }
            }
        },
        TableDirection::PreviousRow => {
            let r2: Option<usize> = match row {
                None => Some(len - 1),
                Some(i) => if i == 0 {
                    Some(0)
                } else {
                    Some(i - 1)
                },
            };
            m.inputs.file_lists[cs].table_row = r2;
            proof {
                assert(m.inputs.file_lists@ =~= old(m).inputs.file_lists@.update(
                    cs as int,
                    cur_unit(*m),
                ));
            }
        },
        TableDirection::NextRow => {
            let r2: Option<usize> = match row {
                None => Some(0),
                Some(i) => if i + 1 >= len {
                    Some(len - 1)
                } else {
                    Some(i + 1)
                },
            };
            m.inputs.file_lists[cs].table_row = r2;
            proof {
                assert(m.inputs.file_lists@ =~= old(m).inputs.file_lists@.update(
                    cs as int,
                    cur_unit(*m),
                ));
            }
        },
    }
}

fn on_input_text(m: &mut Model, c: Option<char>)
    requires
        old(m).wf(),
        old(m).current_page == 3,
    ensures
        final(m).wf(),
        text_rel(*old(m), c, *final(m)),
{
    let cs = m.inputs.current_series_num;
    match m.inputs.currently_editing {
        InputField::Series => {
            match c {
                Some(ch) => crate::strconv::push_char(&mut m.inputs.file_lists[cs].series_name, ch),
                None => {
                    let _popped = crate::strconv::pop_char(&mut m.inputs.file_lists[cs].series_name);
                },
            }
            proof {
                assert(m.inputs.file_lists@ =~= old(m).inputs.file_lists@.update(
                    cs as int,
                    cur_unit(*m),
                ));
            }
        },
        InputField::Format => {
            match c {
                Some(ch) => crate::strconv::push_char(&mut m.inputs.file_lists[cs].format, ch),
                None => {
                    let _popped = crate::strconv::pop_char(&mut m.inputs.file_lists[cs].format);
                },
            }
            proof {
                assert(m.inputs.file_lists@ =~= old(m).inputs.file_lists@.update(
                    cs as int,
                    cur_unit(*m),
                ));
            }
        },
        InputField::BookOrder => {
            let row = m.inputs.file_lists[cs].table_row;
            let col = m.inputs.file_lists[cs].table_col;
            match row {
                Some(r) => {
                    if col == 1 {
                        match c {
                            Some(ch) => crate::strconv::push_char(
                                &mut m.inputs.file_lists[cs].books[r].title,
                                ch,
                            ),
                            None => {
                                let _popped = crate::strconv::pop_char(
                                    &mut m.inputs.file_lists[cs].books[r].title,
                                );
                            },
                        }
                        proof {
                            assert(m.inputs.file_lists@ =~= old(m).inputs.file_lists@.update(
                                cs as int,
                                cur_unit(*m),
                            ));
                            assert(cur_unit(*m).books@ =~= cur_unit(*old(m)).books@.update(
                                r as int,
                                Book {
                                    path: cur_unit(*old(m)).books@[r as int].path,
                                    title: cur_unit(*m).books@[r as int].title,
                                },
                            ));
                        }
                    }
                },
                None => {},
            }
        },
        InputField::BookTitle => {},
    }
}

fn on_swap_book(m: &mut Model, dir: Direction)
    requires
        old(m).wf(),
        old(m).current_page == 3,
    ensures
        final(m).wf(),
        swap_rel(*old(m), dir, *final(m)),
{
    let cs = m.inputs.current_series_num;
    let len = m.inputs.file_lists[cs].books.len();
    let row = m.inputs.file_lists[cs].table_row;
    match row {
        None => {},
        Some(r) => {
            match dir {
                Direction::Next => {
                    if r < len - 1 {
                        let b = m.inputs.file_lists[cs].books.remove(r);
                        m.inputs.file_lists[cs].books.insert(r + 1, b);
                        m.inputs.file_lists[cs].table_row = Some(r + 1);
                        proof {
                            assert(cur_unit(*m).books@ =~= seq_swap(
                                cur_unit(*old(m)).books@,
                                r as int,
                                r as int + 1,
                            ));
                            assert(m.inputs.file_lists@ =~= old(m).inputs.file_lists@.update(
                                cs as int,
                                cur_unit(*m),
                            ));
                            lemma_distinct_swap(cur_unit(*old(m)).books@, r as int, r as int + 1);
                        }
                    }
                },
                Direction::Previous => {
                    if r > 0 {
                        let b = m.inputs.file_lists[cs].books.remove(r);
                        m.inputs.file_lists[cs].books.insert(r - 1, b);
                        m.inputs.file_lists[cs].table_row = Some(r - 1);
                        proof {
                            assert(cur_unit(*m).books@ =~= seq_swap(
                                cur_unit(*old(m)).books@,
                                r as int - 1,
                                r as int,
                            ));
                            assert(m.inputs.file_lists@ =~= old(m).inputs.file_lists@.update(
                                cs as int,
                                cur_unit(*m),
                            ));
                            lemma_distinct_swap(cur_unit(*old(m)).books@, r as int - 1, r as int);
                        }
                    }
                },
            }
        },
    }
}

/// A swap of two rows keeps the selected paths distinct.
proof fn lemma_distinct_swap(s: Seq<Book>, i: int, j: int)
    requires
        crate::model::distinct_paths(s),
        0 <= i < s.len(),
        0 <= j < s.len(),
    ensures
        crate::model::distinct_paths(seq_swap(s, i, j)),
{
    let t = seq_swap(s, i, j);
    assert forall|a: int, b: int|
        0 <= a < b < t.len() implies (#[trigger] t[a]).path@ != (#[trigger] t[b]).path@ by {
        let sa = if a == i {
            j
        } else if a == j {
            i
        } else {
            a
        };
        let sb = if b == i {
            j
        } else if b == j {
            i
        } else {
            b
        };
        assert(t[a] == s[sa]);
        assert(t[b] == s[sb]);
        if sa < sb {
            assert(s[sa].path@ != s[sb].path@);
        } else {
            assert(s[sb].path@ != s[sa].path@);
        }
    }
}

/// A remove-and-insert reorder keeps the selected paths distinct.
proof fn lemma_distinct_move(s: Seq<Book>, r: int, n: int)
    requires
        crate::model::distinct_paths(s),
        0 <= r < s.len(),
        0 <= n < s.len(),
    ensures
        crate::model::distinct_paths(s.remove(r).insert(n, s[r])),
{
    let t = s.remove(r);
    assert forall|a: int, b: int|
        0 <= a < b < t.len() implies (#[trigger] t[a]).path@ != (#[trigger] t[b]).path@ by {
        let sa = if a < r {
            a
        } else {
            a + 1
        };
        let sb = if b < r {
            b
        } else {
            b + 1
        };
        assert(t[a] == s[sa]);
        assert(t[b] == s[sb]);
        assert(s[sa].path@ != s[sb].path@);
    }
    let u = t.insert(n, s[r]);
    assert(forall|a: int| 0 <= a < t.len() ==> (#[trigger] t[a]).path@ != s[r].path@) by {
        assert forall|a: int| 0 <= a < t.len() implies (#[trigger] t[a]).path@ != s[r].path@ by {
            let sa = if a < r {
                a
            } else {
                a + 1
            };
            assert(t[a] == s[sa]);
            if sa < r {
                assert(s[sa].path@ != s[r].path@);
            } else {
                assert(s[r].path@ != s[sa].path@);
            }
        }
    }
    assert forall|a: int, b: int|
        0 <= a < b < u.len() implies (#[trigger] u[a]).path@ != (#[trigger] u[b]).path@ by {
        if a == n {
            assert(u[a] == s[r]);
            assert(u[b] == t[b - 1]);
        } else if b == n {
            assert(u[b] == s[r]);
            assert(u[a] == t[a]);
        } else {
            let ta = if a < n {
                a
            } else {
                a - 1
            };
            let tb = if b < n {
                b
            } else {
                b - 1
            };
            assert(u[a] == t[ta]);
            assert(u[b] == t[tb]);
        }
    }
}

/// Applies one event to the wizard state. This is the whole of the
/// wizard's behaviour: the new state stands in the transition relation
/// `update_rel` with the old one, and the model's invariant is preserved.
/// In particular, advancing from the file-selection page with no file
/// selected leaves the state entirely unchanged.
pub fn update(model: &mut Model, msg: EventMessage)
    requires
        old(model).wf(),
        event_ok(*old(model), msg),
    ensures
        final(model).wf(),
        update_rel(*old(model), msg, *final(model)),
{
    match msg {
        EventMessage::Quit => {
            model.running = false;
        },
        EventMessage::ChangePage(dir) => on_change_page(model, dir),
        EventMessage::SetSeriesCounter(d) => {
            let s = model.inputs.series_num;
            let raw: i8 = if d >= 0 {
                if s > 127 - d {
                    127
                } else {
                    s + d
                }
            } else {
                if s < -128 - d {
                    -128
                } else {
                    s + d
                }
            };
            model.inputs.series_num = if raw < 1 {
                1
            } else {
                raw
            };
        },
        EventMessage::NextFile => on_next_file(model),
        EventMessage::PreviousFile => on_previous_file(model),
        EventMessage::SelectFile(title) => on_select_file(model, title),
        EventMessage::ChangeDirectory(path) => on_change_directory(model, path),
        EventMessage::ChangeField => {
            model.inputs.currently_editing = match model.inputs.currently_editing {
                InputField::Series => InputField::Format,
                InputField::Format => InputField::BookOrder,
                InputField::BookOrder => InputField::Series,
                InputField::BookTitle => InputField::BookTitle,
            };
        },
        EventMessage::ChangeTableField(td) => on_change_table_field(model, td),
        EventMessage::InputText(c) => on_input_text(model, Some(c)),
        EventMessage::RemoveText => on_input_text(model, None),
        EventMessage::SwapBook(dir) => on_swap_book(model, dir),
        EventMessage::ChangeBookPosition(n) => on_change_book_position(model, n),
    }
}

fn on_change_page(m: &mut Model, dir: Direction)
    requires
        old(m).wf(),
    ensures
        final(m).wf(),
        change_page_rel(*old(m), dir, *final(m)),
{
    let p = m.current_page;
    if p == 1 {
        let count = m.inputs.series_num as usize;
        proof {
            assert(count >= 1);
        }
        while m.inputs.file_lists.len() < count
            invariant
                count == old(m).inputs.series_num as int,
                m.inputs.file_lists@.len() >= old(m).inputs.file_lists@.len(),
                m.inputs.file_lists@.len() <= count || m.inputs.file_lists@
                    == old(m).inputs.file_lists@,
                m.inputs.file_lists@.subrange(0, old(m).inputs.file_lists@.len() as int) == old(
                    m,
                ).inputs.file_lists@,
                forall|s: int|
                    old(m).inputs.file_lists@.len() <= s < m.inputs.file_lists@.len()
                        ==> fresh_unit(#[trigger] m.inputs.file_lists@[s]),
                m.running == old(m).running,
                m.current_page == old(m).current_page,
                m.inputs.series_num == old(m).inputs.series_num,
                m.inputs.current_series_num == old(m).inputs.current_series_num,
                m.inputs.currently_editing == old(m).inputs.currently_editing,
                m.flattened@ == old(m).flattened@,
                m.finished_count == old(m).finished_count,
                m.current_book == old(m).current_book,
            decreases count - m.inputs.file_lists@.len(),
        {
            let fl = FileList::new(String::from_str("."));
            proof {
                assert(fresh_unit(fl));
            }
            let ghost before = m.inputs.file_lists@;
            m.inputs.file_lists.push(fl);
            proof {
                assert(m.inputs.file_lists@.subrange(0, old(m).inputs.file_lists@.len() as int)
                    =~= old(m).inputs.file_lists@);
            }
        }
        proof {
            let us2 = m.inputs.file_lists@;
            let units0 = old(m).inputs.file_lists@;
            if count as int <= units0.len() {
                if us2 != units0 {
                    assert(us2.len() <= count);
                    assert(us2.len() == units0.len());
                    assert(us2 =~= units0);
                }
            } else {
                assert(us2.len() == count);
            }
            assert(grown_units(*old(m), us2));
            assert forall|s: int| 0 <= s < us2.len() implies (#[trigger] us2[s]).wf() by {
                if s < units0.len() {
                    assert(us2[s] == us2.subrange(0, units0.len() as int)[s]);
                    assert(us2[s] == units0[s]);
                } else {
                    assert(fresh_unit(us2[s]));
                }
            }
        }
        match dir {
            Direction::Previous => {
                m.current_page = 0;
            },
            Direction::Next => {
                m.current_page = 2;
            },
        }
    } else if p == 2 {
        let cs = m.inputs.current_series_num;
        match dir {
            Direction::Previous => {
                if cs == 0 {
                    m.current_page = 1;
                } else {
                    m.inputs.current_series_num = cs - 1;
                    m.current_page = 3;
                }
            },
            Direction::Next => {
                if m.inputs.file_lists[cs].books.len() > 0 {
                    if !m.inputs.file_lists[cs].fields_ready {
                        m.inputs.file_lists[cs].fields_ready = true;
                        m.inputs.file_lists[cs].series_name = String::from_str("Placeholder title");
                        m.inputs.file_lists[cs].format = String::from_str(
                            "${series} (${position}) - ${title}",
                        );
                    }
                    m.current_page = 3;
                    proof {
                        assert(m.inputs.file_lists@ =~= old(m).inputs.file_lists@.update(
                            cs as int,
                            cur_unit(*m),
                        ));
                        assert(defaults_materialized(cur_unit(*old(m)), cur_unit(*m)));
                    }
                }
            },
        }
    } else if p == 3 {
        let cs = m.inputs.current_series_num;
        let count = m.inputs.series_num as usize;
        match dir {
            Direction::Previous => {
                m.current_page = 2;
            },
            Direction::Next => {
                if cs < count - 1 {
                    m.inputs.current_series_num = cs + 1;
                    m.current_page = 2;
                } else {
                    if m.flattened.len() == 0 {
                        let ghost units = m.inputs.file_lists@;
                        let mut flat: Vec<crate::archive::FlatBook> = Vec::new();
                        let mut s: usize = 0;
                        while s < count
                            invariant
                                count == old(m).inputs.series_num as int,
                                units == m.inputs.file_lists@,
                                count <= units.len(),
                                s <= count,
                                flat@ =~= flatten_units(units, s as int),
                                *m == *old(m),
                            decreases count - s,
                        {
                            let ulen = m.inputs.file_lists[s].books.len();
                            let mut b: usize = 0;
                            while b < ulen
                                invariant
                                    units == m.inputs.file_lists@,
                                    s < units.len(),
                                    ulen == units[s as int].books@.len(),
                                    b <= ulen,
                                    flat@ =~= flatten_units(units, s as int) + crate::model::unit_flat(
                                        units[s as int],
                                    ).subrange(0, b as int),
                                    *m == *old(m),
                                decreases ulen - b,
                            {
                                let fields_ready = m.inputs.file_lists[s].fields_ready;
                                let fb = crate::archive::FlatBook {
                                    path: m.inputs.file_lists[s].books[b].path.clone(),
                                    title: m.inputs.file_lists[s].books[b].title.clone(),
                                    series: m.inputs.file_lists[s].series_name.clone(),
                                    format: if fields_ready {
                                        Some(m.inputs.file_lists[s].format.clone())
                                    } else {
                                        None
                                    },
                                    order: b,
                                };
                                proof {
                                    assert(fb == crate::model::unit_flat(units[s as int])[b as int]);
                                }
                                flat.push(fb);
                                proof {
                                    assert(flat@ =~= flatten_units(units, s as int)
                                        + crate::model::unit_flat(units[s as int]).subrange(
                                        0,
                                        b + 1,
                                    ));
                                }
                                b += 1;
                            }
                            proof {
                                assert(crate::model::unit_flat(units[s as int]).subrange(
                                    0,
                                    ulen as int,
                                ) =~= crate::model::unit_flat(units[s as int]));
                                assert(flat@ =~= flatten_units(units, s as int + 1));
                            }
                            s += 1;
                        }
                        m.flattened = flat;
                        m.finished_count = 0;
                        m.current_book = 0;
                        proof {
                            lemma_flatten_orders(units, count as int);
                        }
                    }
                    m.current_page = 4;
                }
            },
        }
    } else {
        match dir {
            Direction::Previous => {
                if p > 0 {
                    m.current_page = p - 1;
                }
            },
            Direction::Next => {
                m.current_page = (p + 1) % 5;
            },
        }
    }
}

/// Every worklist row's position index stays below the machine limit.
proof fn lemma_flatten_orders(units: Seq<FileList>, count: int)
    ensures
        forall|b: int|
            0 <= b < flatten_units(units, count).len() ==> (#[trigger] flatten_units(
                units,
                count,
            )[b]).order < usize::MAX,
    decreases count,
{
    if count > 0 {
        lemma_flatten_orders(units, count - 1);
        let prev = flatten_units(units, count - 1);
        let uf = crate::model::unit_flat(units[count - 1]);
        assert(units[count - 1].books.len() == units[count - 1].books@.len());
        assert(forall|b: int| 0 <= b < uf.len() ==> (#[trigger] uf[b]).order < usize::MAX);
        assert forall|b: int|
            0 <= b < flatten_units(units, count).len() implies (#[trigger] flatten_units(
            units,
            count,
        )[b]).order < usize::MAX by {
            if b < prev.len() {
                assert(flatten_units(units, count)[b] == prev[b]);
            } else {
                assert(flatten_units(units, count)[b] == uf[b - prev.len()]);
            }
        }
    }
}

proof fn lemma_book_idx_found(books: Seq<Book>, p: Seq<char>, k: int)
    requires
        0 <= k < books.len(),
        books[k].path@ == p,
        forall|j: int| 0 <= j < k ==> (#[trigger] books[j]).path@ != p,
    ensures
        book_idx_from(books, 0, p) == k,
{
    lemma_book_idx_step(books, p, 0, k);
}

proof fn lemma_book_idx_step(books: Seq<Book>, p: Seq<char>, i: int, k: int)
    requires
        0 <= i <= k < books.len(),
        books[k].path@ == p,
        forall|j: int| i <= j < k ==> (#[trigger] books[j]).path@ != p,
    ensures
        book_idx_from(books, i, p) == k,
    decreases k - i,
{
    if i < k {
        lemma_book_idx_step(books, p, i + 1, k);
    }
}

/// Removing a row keeps the selected paths distinct.
proof fn lemma_distinct_remove(s: Seq<Book>, r: int)
    requires
        crate::model::distinct_paths(s),
        0 <= r < s.len(),
    ensures
        crate::model::distinct_paths(s.remove(r)),
{
    let t = s.remove(r);
    assert forall|a: int, b: int|
        0 <= a < b < t.len() implies (#[trigger] t[a]).path@ != (#[trigger] t[b]).path@ by {
        let sa = if a < r {
            a
        } else {
            a + 1
        };
        let sb = if b < r {
            b
        } else {
            b + 1
        };
        assert(t[a] == s[sa]);
        assert(t[b] == s[sb]);
        assert(s[sa].path@ != s[sb].path@);
    }
}

fn on_select_file(m: &mut Model, title: Option<String>)
    requires
        old(m).wf(),
        old(m).current_page == 2,
    ensures
        final(m).wf(),
        select_rel(*old(m), title, *final(m)),
{
    let cs = m.inputs.current_series_num;
    let cursor = m.inputs.file_lists[cs].cursor;
    match cursor {
        None => {},
        Some(ci) => {
            let is_dir = m.inputs.file_lists[cs].items[ci].is_dir;
            if !is_dir {
                let path = m.inputs.file_lists[cs].items[ci].path.clone();
                let ghost books0 = cur_unit(*old(m)).books@;
                let blen = m.inputs.file_lists[cs].books.len();
                let mut j: usize = 0;
                let mut found: Option<usize> = None;
                while j < blen && found.is_none()
                    invariant
                        blen == books0.len(),
                        books0 == m.inputs.file_lists@[cs as int].books@,
                        cs < m.inputs.file_lists@.len(),
                        path@ == cur_unit(*old(m)).items@[ci as int].path@,
                        j <= blen,
                        match found {
                            Some(k) => k == j && (k as int) < books0.len() && books0[k as int].path@
                                == path@ && (forall|x: int|
                                0 <= x < k ==> (#[trigger] books0[x]).path@ != path@),
                            None => forall|x: int|
                                0 <= x < j ==> (#[trigger] books0[x]).path@ != path@,
                        },
                    decreases blen - j + (if found.is_none() {
                        1int
                    } else {
                        0int
                    }),
                {
                    if m.inputs.file_lists[cs].books[j].path.eq(&path) {
                        found = Some(j);
                    } else {
                        j += 1;
                    }
                }
                match found {
                    Some(k) => {
                        proof {
                            lemma_book_idx_found(books0, path@, k as int);
                            assert(contains_path(books0, path@));
                        }
                        let _removed = m.inputs.file_lists[cs].books.remove(k);
                        let nlen = m.inputs.file_lists[cs].books.len();
                        let row = m.inputs.file_lists[cs].table_row;
                        let row2: Option<usize> = match row {
                            None => None,
                            Some(i) => if nlen == 0 {
                                None
                            } else if i >= nlen {
                                Some(nlen - 1)
                            } else {
                                Some(i)
                            },
                        };
                        m.inputs.file_lists[cs].table_row = row2;
                        proof {
                            lemma_distinct_remove(books0, k as int);
                        }
                    },
                    None => {
                        proof {
                            if contains_path(books0, path@) {
                                let w = choose|x: int|
                                    0 <= x < books0.len() && (#[trigger] books0[x]).path@ == path@;
                                assert(books0[w].path@ != path@);
                            }
                        }
                        let t = match title {
                            Some(t) => t,
                            None => String::new(),
                        };
                        m.inputs.file_lists[cs].books.push(Book { path, title: t });
                        proof {
                            let nb = cur_unit(*m).books@;
                            assert(nb.subrange(0, books0.len() as int) =~= books0);
                            assert forall|a: int, b: int|
                                0 <= a < b < nb.len() implies (#[trigger] nb[a]).path@
                                != (#[trigger] nb[b]).path@ by {
                                if b < books0.len() {
                                    assert(nb[a] == books0[a] && nb[b] == books0[b]);
                                } else {
                                    assert(nb[b] == nb.last());
                                    assert(nb[a] == books0[a]);
                                    assert(!contains_path(books0, path@));
                                }
                            }
                        }
                    },
                }
            }
        },
    }
    let len = m.inputs.file_lists[cs].items.len();
    let c = m.inputs.file_lists[cs].cursor;
    let c2: Option<usize> = if len == 0 {
        c
    } else {
        match c {
            None => Some(0),
            Some(i) => if i >= len - 1 {
                Some(0)
            } else {
                Some(i + 1)
            },
        }
    };
    m.inputs.file_lists[cs].cursor = c2;
    proof {
        assert(m.inputs.file_lists@ =~= old(m).inputs.file_lists@.update(cs as int, cur_unit(*m)));
    }
}

fn on_change_book_position(m: &mut Model, new_index: usize)
    requires
        old(m).wf(),
        old(m).current_page == 3,
    ensures
        final(m).wf(),
        move_rel(*old(m), new_index, *final(m)),
{
    let cs = m.inputs.current_series_num;
    let len = m.inputs.file_lists[cs].books.len();
    let row = m.inputs.file_lists[cs].table_row;
    match row {
        None => {},
        Some(r) => {
            if new_index < len {
                let b = m.inputs.file_lists[cs].books.remove(r);
                m.inputs.file_lists[cs].books.insert(new_index, b);
                m.inputs.file_lists[cs].table_row = Some(new_index);
                proof {
                    assert(m.inputs.file_lists@ =~= old(m).inputs.file_lists@.update(
                        cs as int,
                        cur_unit(*m),
                    ));
                    lemma_distinct_move(cur_unit(*old(m)).books@, r as int, new_index as int);
                }
            }
        },
    }
}

/// The archive paths of the selected books, in order.
pub open spec fn book_paths(s: Seq<Book>) -> Seq<Seq<char>> {
    s.map_values(|b: Book| b.path@)
}

/// The titles of the selected books, in order.
pub open spec fn book_titles(s: Seq<Book>) -> Seq<Seq<char>> {
    s.map_values(|b: Book| b.title@)
}

proof fn lemma_proj_remove_insert(s: Seq<Book>, r: int, n: int)
    requires
        0 <= r < s.len(),
        0 <= n < s.len(),
    ensures
        book_paths(s.remove(r).insert(n, s[r])) == book_paths(s).remove(r).insert(
            n,
            book_paths(s)[r],
        ),
        book_titles(s.remove(r).insert(n, s[r])) == book_titles(s).remove(r).insert(
            n,
            book_titles(s)[r],
        ),
{
    let t = s.remove(r).insert(n, s[r]);
    let ps = book_paths(s);
    let ts = book_titles(s);
    assert forall|i: int| 0 <= i < t.len() implies #[trigger] t[i] == (if i == n {
        s[r]
    } else {
        let j = if i < n {
            i
        } else {
            i - 1
        };
        let k = if j < r {
            j
        } else {
            j + 1
        };
        s[k]
    }) by {
        if i == n {
            assert(t[i] == s[r]);
        } else {
            let j = if i < n {
                i
            } else {
                i - 1
            };
            assert(t[i] == s.remove(r)[j]);
            let k = if j < r {
                j
            } else {
                j + 1
            };
            assert(s.remove(r)[j] == s[k]);
        }
    }
    assert(book_paths(t) =~= ps.remove(r).insert(n, ps[r])) by {
        assert forall|i: int| 0 <= i < t.len() implies book_paths(t)[i] == ps.remove(r).insert(
            n,
            ps[r],
        )[i] by {
            if i == n {
            } else {
                let j = if i < n {
                    i
                } else {
                    i - 1
                };
                let k = if j < r {
                    j
                } else {
                    j + 1
                };
                assert(ps.remove(r).insert(n, ps[r])[i] == ps.remove(r)[j]);
                assert(ps.remove(r)[j] == ps[k]);
                assert(book_paths(t)[i] == t[i].path@);
            }
        }
    }
    assert(book_titles(t) =~= ts.remove(r).insert(n, ts[r])) by {
        assert forall|i: int| 0 <= i < t.len() implies book_titles(t)[i] == ts.remove(r).insert(
            n,
            ts[r],
        )[i] by {
            if i == n {
            } else {
                let j = if i < n {
                    i
                } else {
                    i - 1
                };
                let k = if j < r {
                    j
                } else {
                    j + 1
                };
                assert(ts.remove(r).insert(n, ts[r])[i] == ts.remove(r)[j]);
                assert(ts.remove(r)[j] == ts[k]);
                assert(book_titles(t)[i] == t[i].title@);
            }
        }
    }
}

/// Reordering law: moving the highlighted book to a target slot removes it
/// from its old position and inserts it at the new one, shifting exactly
/// the rows strictly between the two positions by one slot; the sequence of
/// archive paths and the sequence of titles undergo the identical
/// permutation, so the two stay in lock-step.
pub proof fn lemma_reorder_lockstep(m: Model, m2: Model, cur: usize, n: usize)
    requires
        m.wf(),
        m.current_page == 3,
        cur_unit(m).table_row == Some(cur),
        (n as int) < cur_unit(m).books@.len(),
        update_rel(m, EventMessage::ChangeBookPosition(n), m2),
    ensures
        cur_unit(m2).books@ == cur_unit(m).books@.remove(cur as int).insert(
            n as int,
            cur_unit(m).books@[cur as int],
        ),
        book_paths(cur_unit(m2).books@) == book_paths(cur_unit(m).books@).remove(
            cur as int,
        ).insert(n as int, book_paths(cur_unit(m).books@)[cur as int]),
        book_titles(cur_unit(m2).books@) == book_titles(cur_unit(m).books@).remove(
            cur as int,
        ).insert(n as int, book_titles(cur_unit(m).books@)[cur as int]),
{
    let s = cur_unit(m).books@;
    assert(cur_unit(m).wf());
    lemma_proj_remove_insert(s, cur as int, n as int);
}

/// Blocked-advance law: attempting to advance from the file-selection page
/// with no file selected leaves the wizard state entirely unchanged.
pub proof fn lemma_blocked_advance(m: Model, m2: Model)
    requires
        m.wf(),
        m.current_page == 2,
        cur_unit(m).books@.len() == 0,
        update_rel(m, EventMessage::ChangePage(Direction::Next), m2),
    ensures
        m2 == m,
{
}

} // verus!
