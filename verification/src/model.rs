//! The wizard's data model: pages, per-series selections and field tables,
//! and the apply-phase worklist, with the invariants that navigation and
//! editing preserve.

use vstd::prelude::*;
use vstd::utf8::encode_utf8;

use crate::archive::{
    archive_readable, edit_entries, mimetype_body, mimetype_name, opf_idx_from, read_archive,
    rebuild_archive, rebuild_succeeds, rebuilt_model, FlatBook,
};
use crate::errors::EditError;
use crate::patch::patched_metadata;
use crate::search::{find_last_byte, last_idx, sub_to_vec, bytes_eq};
use crate::zipio::zip_entries;

verus! {

/// The pages of the wizard, in navigation order.
#[derive(Clone, Copy, PartialEq, Eq, Structural)]
pub enum Page {
    /// Welcome page.
    Home,
    /// Terminal quit state (reached by the quit command, not by paging).
    Quit,
    /// Page for choosing the number of series to edit.
    SeriesData,
    /// Page for selecting the archives of the current series.
    FileSelection,
    /// Page for entering the current series' fields and book order.
    BookData,
    /// Apply phase: the batch of edits runs while this page shows.
    Loading,
}

/// The page that a page index denotes.
pub open spec fn page_at(i: int) -> Page {
    if i == 0 {
        Page::Home
    } else if i == 1 {
        Page::SeriesData
    } else if i == 2 {
        Page::FileSelection
    } else if i == 3 {
        Page::BookData
    } else {
        Page::Loading
    }
}

impl Page {
    /// The page at a given index of the navigation order.
    pub fn at_index(i: usize) -> (p: Page)
        ensures
            p == page_at(i as int),
    {
        if i == 0 {
            Page::Home
        } else if i == 1 {
            Page::SeriesData
        } else if i == 2 {
            Page::FileSelection
        } else if i == 3 {
            Page::BookData
        } else {
            Page::Loading
        }
    }
}

/// The number of pages in the navigation order.
pub const PAGE_COUNT: usize = 5;

/// The fields a series' data page can edit.
#[derive(Clone, Copy, PartialEq, Eq, Structural)]
pub enum InputField {
    Series,
    Format,
    BookOrder,
    BookTitle,
}

/// One entry of a directory listing, as the shell hands it in.
#[derive(Clone)]
pub struct PathEntry {
    /// Absolute path of the entry.
    pub path: String,
    /// Whether the entry is a directory.
    pub is_dir: bool,
}

/// One selected book: its archive path and its editable title, kept as one
/// record so selection and titles can never fall out of step.
pub struct Book {
    pub path: String,
    pub title: String,
}

/// One series being edited: its file picker state, its selected books, and
/// its field table.
pub struct FileList {
    /// The picker's current directory listing.
    pub items: Vec<PathEntry>,
    /// The picker's highlighted entry.
    pub cursor: Option<usize>,
    /// Whether `items` holds the listing of `current_directory` already.
    pub listed: bool,
    /// The picker's current directory.
    pub current_directory: String,
    /// The selected books, in series order.
    pub books: Vec<Book>,
    /// Whether the series' default field values were materialized.
    pub fields_ready: bool,
    /// The series name field.
    pub series_name: String,
    /// The naming format template field.
    pub format: String,
    /// The highlighted row of the book-order table.
    pub table_row: Option<usize>,
    /// The highlighted column of the book-order table.
    pub table_col: usize,
}

/// The number of columns of the book-order table.
pub const TABLE_COLS: usize = 4;

/// Whether two books of the series point at the same archive.
pub open spec fn distinct_paths(books: Seq<Book>) -> bool {
    forall|i: int, j: int|
        0 <= i < j < books.len() ==> (#[trigger] books[i]).path@ != (#[trigger] books[j]).path@
}

impl FileList {
    /// The cursors stay inside their lists and no archive is selected
    /// twice.
    pub open spec fn wf(&self) -> bool {
        &&& (self.cursor matches Some(c) ==> (c as int) < self.items@.len())
        &&& (self.table_row matches Some(r) ==> (r as int) < self.books@.len())
        &&& (self.table_col as int) < TABLE_COLS
        &&& distinct_paths(self.books@)
    }

    /// A fresh series unit looking at `current_directory`, with nothing
    /// listed or selected yet.
    pub fn new(current_directory: String) -> (fl: FileList)
        ensures
            fl.wf(),
            fl.items@.len() == 0,
            fl.cursor is None,
            !fl.listed,
            fl.current_directory == current_directory,
            fl.books@.len() == 0,
            !fl.fields_ready,
            fl.series_name@ == Seq::<char>::empty(),
            fl.format@ == Seq::<char>::empty(),
            fl.table_row is None,
            fl.table_col == 0,
    {
        FileList {
            items: Vec::new(),
            cursor: None,
            listed: false,
            current_directory,
            books: Vec::new(),
            fields_ready: false,
            series_name: String::new(),
            format: String::new(),
            table_row: None,
            table_col: 0,
        }
    }
}

/// The picker highlight one entry down, wrapping to the top; an empty
/// listing leaves it as it is.
pub open spec fn cursor_next_spec(len: int, c: Option<usize>) -> Option<usize> {
    if len == 0 {
        c
    } else {
        match c {
            None => Some(0usize),
            Some(i) => if i as int >= len - 1 {
                Some(0usize)
            } else {
                Some((i + 1) as usize)
            },
        }
    }
}

/// The picker highlight one entry up, wrapping to the bottom; an empty
/// listing leaves it as it is.
pub open spec fn cursor_prev_spec(len: int, c: Option<usize>) -> Option<usize> {
    if len == 0 {
        c
    } else {
        match c {
            None => Some((len - 1) as usize),
            Some(i) => if i == 0 {
                Some((len - 1) as usize)
            } else {
                Some((i - 1) as usize)
            },
        }
    }
}

/// The input state accumulated across pages.
pub struct Input {
    /// How many series are being edited.
    pub series_num: i8,
    /// The series whose pages are currently shown.
    pub current_series_num: usize,
    /// One unit per series, created lazily and never removed.
    pub file_lists: Vec<FileList>,
    /// The field being edited on the book-data page.
    pub currently_editing: InputField,
}

impl Input {
    /// The initial input state: one series, nothing created yet.
    pub fn new() -> (inp: Input)
        ensures
            inp.series_num == 1,
            inp.current_series_num == 0,
            inp.file_lists@.len() == 0,
            inp.currently_editing == InputField::Series,
    {
        Input {
            series_num: 1,
            current_series_num: 0,
            file_lists: Vec::new(),
            currently_editing: InputField::Series,
        }
    }
}

/// The whole wizard state.
pub struct Model {
    /// False once the user quit.
    pub running: bool,
    /// Index of the current page in the navigation order.
    pub current_page: usize,
    /// The accumulated input.
    pub inputs: Input,
    /// The apply-phase worklist: one resolved entry per selected book, in
    /// series order, built once on entering the apply phase and immutable
    /// thereafter.
    pub flattened: Vec<FlatBook>,
    /// How many worklist entries completed; completion order equals
    /// worklist order, so the completed entries are exactly a prefix.
    pub finished_count: usize,
    /// The worklist entry the apply phase looks at, clamped to the last.
    pub current_book: usize,
}

/// The worklist rows that one series contributes: its books in order, each
/// with the series' name and format and its own 0-based position.
pub open spec fn unit_flat(u: FileList) -> Seq<FlatBook> {
    Seq::new(
        u.books@.len(),
        |b: int|
            FlatBook {
                path: u.books@[b].path,
                title: u.books@[b].title,
                series: u.series_name,
                format: if u.fields_ready {
                    Some(u.format)
                } else {
                    None
                },
                order: b as usize,
            },
    )
}

/// The flattened worklist: the concatenation of the first `count` series'
/// rows, in series order.
pub open spec fn flatten_units(units: Seq<FileList>, count: int) -> Seq<FlatBook>
    decreases count,
{
    if count <= 0 {
        Seq::empty()
    } else {
        flatten_units(units, count - 1) + unit_flat(units[count - 1])
    }
}

impl Model {
    /// How many of the leading series are known to have at least one
    /// selected book and materialized fields: every series before the
    /// current one, and on the book-data and apply pages the current one
    /// too.
    pub open spec fn books_bound(&self) -> int {
        if self.current_page == 3 || self.current_page == 4 {
            self.inputs.current_series_num + 1
        } else {
            self.inputs.current_series_num as int
        }
    }

    /// The wizard's invariant.
    pub open spec fn wf(&self) -> bool {
        let units = self.inputs.file_lists@;
        let cs = self.inputs.current_series_num as int;
        let count = self.inputs.series_num as int;
        &&& (self.current_page as int) < PAGE_COUNT
        &&& count >= 1
        &&& (forall|s: int| 0 <= s < units.len() ==> (#[trigger] units[s]).wf())
        &&& (units.len() == 0 ==> cs == 0)
        &&& (units.len() > 0 ==> cs < units.len())
        &&& (self.current_page == 2 || self.current_page == 3 ==> cs < units.len() && count
            <= units.len())
        &&& (self.current_page == 4 ==> cs < units.len() && count <= cs + 1 && count
            <= units.len())
        &&& (forall|s: int|
            0 <= s < self.books_bound() && s < units.len() ==> (#[trigger] units[s]).books@.len()
                >= 1 && units[s].fields_ready)
        &&& self.finished_count <= self.flattened@.len()
        &&& (self.current_book as int) == (if self.flattened@.len() == 0 {
            0int
        } else if (self.finished_count as int) < self.flattened@.len() {
            self.finished_count as int
        } else {
            self.flattened@.len() - 1
        })
        &&& (forall|b: int|
            0 <= b < self.flattened@.len() ==> (#[trigger] self.flattened@[b]).order
                < usize::MAX)
    }

    /// The initial wizard state: on the home page, with one series planned
    /// and an empty worklist.
    pub fn new() -> (m: Model)
        ensures
            m.wf(),
            m.running,
            m.current_page == 0,
            m.inputs.series_num == 1,
            m.inputs.current_series_num == 0,
            m.inputs.file_lists@.len() == 0,
            m.flattened@.len() == 0,
            m.finished_count == 0,
            m.current_book == 0,
    {
        Model {
            running: true,
            current_page: 0,
            inputs: Input::new(),
            flattened: Vec::new(),
            finished_count: 0,
            current_book: 0,
        }
    }

    /// Stores the listing that the shell produced for series `i`'s current
    /// directory, highlighting the first entry of a non-empty listing.
    pub fn supply_listing(&mut self, i: usize, entries: Vec<PathEntry>)
        requires
            old(self).wf(),
            i < old(self).inputs.file_lists@.len(),
        ensures
            final(self).wf(),
            final(self).inputs.file_lists@.len() == old(self).inputs.file_lists@.len(),
            final(self).inputs.file_lists@ == old(self).inputs.file_lists@.update(
                i as int,
                final(self).inputs.file_lists@[i as int],
            ),
            ({
                let u = old(self).inputs.file_lists@[i as int];
                let u2 = final(self).inputs.file_lists@[i as int];
                u2 == (FileList {
                    items: u2.items,
                    cursor: u2.cursor,
                    listed: true,
                    ..u
                }) && u2.items@ == entries@ && u2.cursor == (if entries@.len() == 0 {
                    None
                } else {
                    Some(0usize)
                })
            }),
            final(self).running == old(self).running,
            final(self).current_page == old(self).current_page,
            final(self).inputs.series_num == old(self).inputs.series_num,
            final(self).inputs.current_series_num == old(self).inputs.current_series_num,
            final(self).inputs.currently_editing == old(self).inputs.currently_editing,
            final(self).flattened@ == old(self).flattened@,
            final(self).finished_count == old(self).finished_count,
            final(self).current_book == old(self).current_book,
    {
        let cursor: Option<usize> = if entries.len() == 0 {
            None
        } else {
            Some(0)
        };
        self.inputs.file_lists[i].items = entries;
        self.inputs.file_lists[i].cursor = cursor;
        self.inputs.file_lists[i].listed = true;
        proof {
            let u2 = self.inputs.file_lists@[i as int];
            assert(self.inputs.file_lists@ =~= old(self).inputs.file_lists@.update(i as int, u2));
            assert(forall|s: int|
                0 <= s < self.books_bound() && s < self.inputs.file_lists@.len()
                    ==> (#[trigger] self.inputs.file_lists@[s]).books@.len() >= 1
                    && self.inputs.file_lists@[s].fields_ready);
        }
    }
}

/// The UTF-8 bytes of a path.
pub open spec fn path_bytes(p: PathEntry) -> Seq<u8> {
    encode_utf8(p.path@)
}

/// The bytes after the last `/`: the file name of the path.
pub open spec fn file_name_bytes(b: Seq<u8>) -> Seq<u8> {
    b.subrange(last_idx(b, 47) + 1, b.len() as int)
}

/// A hidden entry: its file name starts with a dot.
pub open spec fn is_hidden(p: PathEntry) -> bool {
    let f = file_name_bytes(path_bytes(p));
    f.len() > 0 && f[0] == 46
}

/// An archive path: it ends in `.epub`.
pub open spec fn is_epub_path(p: PathEntry) -> bool {
    let b = path_bytes(p);
    let pat = encode_utf8(".epub"@);
    b.len() >= pat.len() && b.subrange(b.len() - pat.len(), b.len() as int) == pat
}

/// The picker keeps a non-hidden directory.
pub open spec fn keep_dir(p: PathEntry) -> bool {
    p.is_dir && !is_hidden(p)
}

/// The picker keeps a non-hidden archive file.
pub open spec fn keep_file(p: PathEntry) -> bool {
    !p.is_dir && !is_hidden(p) && is_epub_path(p)
}

/// The kept directories of a listing, in listing order.
pub open spec fn dirs_of(es: Seq<PathEntry>) -> Seq<PathEntry>
    decreases es.len(),
{
    if es.len() == 0 {
        Seq::empty()
    } else {
        let rest = dirs_of(es.drop_last());
        if keep_dir(es.last()) {
            rest.push(es.last())
        } else {
            rest
        }
    }
}

/// The kept archive files of a listing, in listing order.
pub open spec fn epubs_of(es: Seq<PathEntry>) -> Seq<PathEntry>
    decreases es.len(),
{
    if es.len() == 0 {
        Seq::empty()
    } else {
        let rest = epubs_of(es.drop_last());
        if keep_file(es.last()) {
            rest.push(es.last())
        } else {
            rest
        }
    }
}

fn entry_hidden(p: &PathEntry) -> (r: bool)
    ensures
        r == is_hidden(*p),
{
    let b = p.path.as_str().as_bytes();
    match find_last_byte(b, 47) {
        Some(k) => k < b.len() - 1 && b[k + 1] == 46,
        None => b.len() > 0 && b[0] == 46,
    }
}

fn entry_is_epub(p: &PathEntry) -> (r: bool)
    ensures
        r == is_epub_path(*p),
{
    let b = p.path.as_str().as_bytes();
    let pat = ".epub".as_bytes();
    if b.len() >= pat.len() {
        let tail = sub_to_vec(b, b.len() - pat.len(), b.len());
        bytes_eq(tail.as_slice(), pat)
    } else {
        false
    }
}

impl Model {
    /// Orders a raw directory listing for the picker: hidden entries are
    /// dropped, the remaining directories come first and the remaining
    /// `.epub` files after them, each group in listing order.
    pub fn get_current_file_list(&self, entries: &Vec<PathEntry>) -> (r: Vec<PathEntry>)
        ensures
            r@ == dirs_of(entries@) + epubs_of(entries@),
    {
        let n = entries.len();
        let mut out: Vec<PathEntry> = Vec::new();
        let mut i: usize = 0;
        while i < n
            invariant
                n == entries@.len(),
                i <= n,
                out@ =~= dirs_of(entries@.subrange(0, i as int)),
            decreases n - i,
        {
            proof {
                assert(entries@.subrange(0, i + 1).drop_last() =~= entries@.subrange(0, i as int));
                assert(entries@.subrange(0, i + 1).last() == entries@[i as int]);
            }
            let e = &entries[i];
            if e.is_dir && !entry_hidden(e) {
                out.push(PathEntry { path: e.path.clone(), is_dir: e.is_dir });
                proof {
                    assert(out@.last() == entries@[i as int]);
                    assert(out@ =~= dirs_of(entries@.subrange(0, i + 1)));
                }
            }
            i += 1;
        }
        proof {
            assert(entries@.subrange(0, n as int) =~= entries@);
        }
        let mut i: usize = 0;
        let ghost dirs = dirs_of(entries@);
        while i < n
            invariant
                n == entries@.len(),
                i <= n,
                dirs == dirs_of(entries@),
                out@ =~= dirs + epubs_of(entries@.subrange(0, i as int)),
            decreases n - i,
        {
            proof {
                assert(entries@.subrange(0, i + 1).drop_last() =~= entries@.subrange(0, i as int));
                assert(entries@.subrange(0, i + 1).last() == entries@[i as int]);
            }
            let e = &entries[i];
            if !e.is_dir && !entry_hidden(e) && entry_is_epub(e) {
                out.push(PathEntry { path: e.path.clone(), is_dir: e.is_dir });
                proof {
                    assert(out@.last() == entries@[i as int]);
                    assert(out@ =~= dirs + epubs_of(entries@.subrange(0, i + 1)));
                }
            }
            i += 1;
        }
        proof {
            assert(entries@.subrange(0, n as int) =~= entries@);
        }
        out
    }
}

/// The entry models after the metadata patch that `book` asks for: with no
/// format the entries stand as they are; with one, the first `content.opf`
/// entry's bytes are replaced by the patched document.
pub open spec fn edited_models(
    es: Seq<(Seq<char>, Seq<u8>, bool)>,
    book: FlatBook,
) -> Seq<(Seq<char>, Seq<u8>, bool)> {
    let k = opf_idx_from(es, 0);
    match book.format {
        None => es,
        Some(f) => es.update(
            k,
            (es[k].0, patched_metadata(es[k].1, book.value_spec()->Ok_0), es[k].2),
        ),
    }
}

impl Model {
    /// Edits one archive, handed in as its bytes: its entries are read, the
    /// metadata document is patched with the pending worklist book's
    /// resolved fields, and the container is rebuilt with the uncompressed
    /// `mimetype` entry first. The wizard state is untouched: the shell
    /// calls `mark_book_done` only once the rewritten archive has actually
    /// reached the disk. Success is owed exactly when the source is
    /// readable, it holds a metadata document, the format (if any)
    /// resolves, and the container accepts the rebuilt entries.
    pub fn edit_epub(&self, source: Vec<u8>) -> (r: Result<Vec<u8>, EditError>)
        requires
            self.wf(),
            self.finished_count < self.flattened@.len(),
        ensures
            ({
                let es = zip_entries(source@);
                let book = self.flattened@[self.current_book as int];
                let readable = archive_readable(source@);
                let k = opf_idx_from(es, 0);
                let fmt_ok = (book.format is Some ==> book.value_spec() is Ok);
                match r {
                    Ok(out) => {
                        &&& readable
                        &&& k >= 0
                        &&& fmt_ok
                        &&& rebuild_succeeds(edited_models(es, book))
                        &&& zip_entries(out@) == rebuilt_model(edited_models(es, book))
                        &&& zip_entries(out@).len() > 0
                        &&& zip_entries(out@)[0] == (mimetype_name(), mimetype_body(), true)
                    },
                    Err(e) => match e {
                        EditError::IoError => !readable || (k >= 0 && fmt_ok
                            && !rebuild_succeeds(edited_models(es, book))),
                        EditError::MetadataNotFound => readable && k == -1,
                        EditError::UnknownPlaceholder(s) => readable && k >= 0 && book.format
                            is Some && book.value_spec() == Err::<Seq<u8>, Seq<u8>>(
                            encode_utf8(s@),
                        ),
                    },
                }
            }),
    {
        let entries = match read_archive(source) {
            Ok(v) => v,
            Err(e) => {
                return Err(e);
            },
        };
        let edited = match edit_entries(entries, &self.flattened[self.current_book]) {
            Ok(v) => v,
            Err(e) => {
                return Err(e);
            },
        };
        match rebuild_archive(&edited) {
            Ok(v) => Ok(v),
            Err(e) => Err(e),
        }
    }

    /// Marks the pending worklist book completed and advances the apply
    /// cursor, clamped to the last entry. The shell calls this only after
    /// the rewritten archive reached the disk; a failed book stays pending.
    pub fn mark_book_done(&mut self)
        requires
            old(self).wf(),
            old(self).finished_count < old(self).flattened@.len(),
        ensures
            final(self).wf(),
            *final(self) == (Model {
                finished_count: (old(self).finished_count + 1) as usize,
                current_book: (if old(self).finished_count + 1 < old(self).flattened@.len() {
                    old(self).finished_count + 1
                } else {
                    old(self).flattened@.len() - 1
                }) as usize,
                ..*old(self)
            }),
    {
        let total = self.flattened.len();
        self.finished_count = self.finished_count + 1;
        if self.finished_count < total {
            self.current_book = self.finished_count;
        } else {
            self.current_book = total - 1;
        }
    }
}

} // verus!
