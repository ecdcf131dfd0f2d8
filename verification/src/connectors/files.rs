//! A folder, or a single file, as a source.
//!
//! A file at the root is a table, named after itself, and a subdirectory is one table
//! over every file inside it, with a column that says which file each row came from. So
//! a folder of monthly exports is one table rather than twelve.
//!
//! Which format is not guessed: a folder source declares it, and that is also what
//! narrows a mixed directory to the files worth reading.

use crate::federation::quote;
use crate::federation::session;
use crate::model::{CsvOptions, CsvOptionsView, FileFormat, FileOptions, FileOptionsView};
use crate::order::{self, Ranked};
use crate::paths;
use crate::table;
use crate::text;
use crate::tree::{self, Branch, Child, ChildView};
use vstd::prelude::*;
use vstd::string::*;

verus! {

/// A folder source is browsed, not crawled: it reads this many files.
pub const MAX_FILES: usize = 200;

/// How many levels below the root are walked.
pub const MAX_DEPTH: usize = 6;

/// The schema every table lands in.
pub const ROOT_SCHEMA: &'static str = "public";

/// The column a folder source adds, holding the file a row came from.
pub const FILE_COLUMN: &'static str = "source_file";

/// The only thing that makes a directory a Delta table.
pub const DELTA_LOG: &'static str = "_delta_log";

// ------------------------------------------------------------------------ readers

/// The table function that reads a format. A spreadsheet has none.
pub open spec fn reads(format: FileFormat) -> Option<Seq<char>> {
    match format {
        FileFormat::Csv => Some("read_csv"@),
        FileFormat::Parquet => Some("read_parquet"@),
        FileFormat::Json | FileFormat::JsonLines => Some("read_json"@),
        FileFormat::Delta => Some("delta_scan"@),
        FileFormat::Excel => None,
    }
}

pub fn reader(format: FileFormat) -> (r: Option<&'static str>)
    ensures
        text::opt_str(r) == reads(format),
{
    match format {
        FileFormat::Csv => Some("read_csv"),
        FileFormat::Parquet => Some("read_parquet"),
        FileFormat::Json | FileFormat::JsonLines => Some("read_json"),
        FileFormat::Delta => Some("delta_scan"),
        FileFormat::Excel => None,
    }
}

/// The table function for a path, going by its extension.
pub open spec fn reads_path(path: Seq<char>, windows: bool) -> Option<Seq<char>> {
    match paths::extension(path, windows) {
        Some(extension) => match FileFormat::for_extension(extension) {
            Some(format) => reads(format),
            None => None,
        },
        None => None,
    }
}

pub fn reader_for(path: &str, windows: bool) -> (r: Option<&'static str>)
    ensures
        text::opt_str(r) == reads_path(path@, windows),
{
    match paths::extension_of(path, windows) {
        Some(extension) => match FileFormat::from_extension(&extension) {
            Some(format) => reader(format),
            None => None,
        },
        None => None,
    }
}

/// The extensions of those formats, none of them twice.
pub open spec fn extensions_of(formats: Seq<FileFormat>) -> Seq<Seq<char>>
    decreases formats.len(),
{
    if formats.len() == 0 {
        Seq::empty()
    } else {
        session::absorbed(
            extensions_of(formats.drop_last()),
            formats.last().extension_list(),
        )
    }
}

/// Every extension that is read, as a person reads a list.
pub open spec fn readable() -> Seq<char> {
    text::join(
        extensions_of(
            seq![
                FileFormat::Csv,
                FileFormat::Parquet,
                FileFormat::Json,
                FileFormat::JsonLines,
                FileFormat::Excel,
                FileFormat::Delta,
            ],
        ),
        ", "@,
    )
}

pub fn readable_extensions() -> (r: String)
    ensures
        r@ == readable(),
{
    let formats = FileFormat::all();
    let mut names: Vec<String> = Vec::new();
    let mut i: usize = 0;
    assert(text::views(names@) == Seq::<Seq<char>>::empty());
    assert(formats@.take(0) == Seq::<FileFormat>::empty());
    while i < formats.len()
        invariant
            i <= formats.len(),
            text::views(names@) == extensions_of(formats@.take(i as int)),
        decreases formats.len() - i,
    {
        let more = formats[i].extensions();
        let ghost list = formats@[i as int].extension_list();
        let ghost start = text::views(names@);
        let mut j: usize = 0;
        assert(list.take(0) == Seq::<Seq<char>>::empty());
        while j < more.len()
            invariant
                j <= more.len(),
                list == Seq::new(more@.len(), |k: int| more@[k]@),
                text::views(names@) == session::absorbed(start, list.take(j as int)),
            decreases more.len() - j,
        {
            assert(list.take(j as int + 1).drop_last() == list.take(j as int));
            if !session::is_listed(&names, more[j]) {
                let ghost before = text::views(names@);
                names.push(more[j].to_owned());
                assert(text::views(names@) == before.push(list[j as int]));
            }
            j = j + 1;
        }
        assert(list.take(j as int) == list);
        assert(formats@.take(i as int + 1).drop_last() == formats@.take(i as int));
        i = i + 1;
    }
    assert(formats@.take(i as int) == formats@);
    text::joined(&names, ", ")
}

// ---------------------------------------------------------------------- arguments

/// An argument that is a text, where there is one and it is not empty.
pub open spec fn worded(name: Seq<char>, value: Option<Seq<char>>) -> Seq<Seq<char>> {
    match value {
        Some(t) => if t.len() == 0 {
            Seq::empty()
        } else {
            seq![name + " = "@ + quote::literal(t)]
        },
        None => Seq::empty(),
    }
}

fn add_worded(name: &str, value: &Option<String>, out: &mut Vec<String>)
    ensures
        text::views(final(out)@) == text::views(old(out)@) + worded(name@, text::opt(*value)),
{
    let ghost before = text::views(out@);
    if let Some(t) = value {
        if !t.as_str().is_empty() {
            out.push(name.to_owned().concat(" = ").concat(&quote::quote_literal(t)));
            assert(text::views(out@) == before + worded(name@, text::opt(*value)));
            return;
        }
    }
    assert(text::views(out@) == before + worded(name@, text::opt(*value)));
}

/// An argument that is yes or no.
pub open spec fn flagged(name: Seq<char>, value: Option<bool>) -> Seq<Seq<char>> {
    match value {
        Some(b) => seq![name + " = "@ + text::truth(b)],
        None => Seq::empty(),
    }
}

fn add_flagged(name: &str, value: Option<bool>, out: &mut Vec<String>)
    ensures
        text::views(final(out)@) == text::views(old(out)@) + flagged(name@, value),
{
    let ghost before = text::views(out@);
    if let Some(b) = value {
        out.push(name.to_owned().concat(" = ").concat(text::truth_of(b)));
    }
    assert(text::views(out@) == before + flagged(name@, value));
}

/// An argument that is a number.
pub open spec fn counted(name: Seq<char>, value: Option<int>) -> Seq<Seq<char>> {
    match value {
        Some(n) => seq![name + " = "@ + text::signed(n)],
        None => Seq::empty(),
    }
}

fn add_counted(name: &str, value: Option<i128>, out: &mut Vec<String>)
    ensures
        text::views(final(out)@) == text::views(old(out)@) + counted(
            name@,
            match value {
                Some(n) => Some(n as int),
                None => None,
            },
        ),
{
    let ghost before = text::views(out@);
    if let Some(n) = value {
        out.push(name.to_owned().concat(" = ").concat(&text::signed_of(n)));
        assert(text::views(out@) == before + counted(name@, Some(n as int)));
    } else {
        assert(text::views(out@) == before + counted(name@, None));
    }
}

/// The named arguments a reader of CSV knows the options by.
pub open spec fn csv_words(o: CsvOptionsView) -> Seq<Seq<char>> {
    worded("delim"@, o.delimiter) + worded("quote"@, o.quote) + worded("escape"@, o.escape)
        + worded("decimal_separator"@, o.decimal) + worded("encoding"@, o.encoding) + worded(
        "nullstr"@,
        o.null_string,
    ) + worded("dateformat"@, o.date_format) + worded("timestampformat"@, o.timestamp_format)
        + flagged("header"@, o.header) + counted(
        "skip"@,
        match o.skip {
            Some(n) => Some(n as int),
            None => None,
        },
    ) + flagged("ignore_errors"@, o.ignore_errors) + counted(
        "sample_size"@,
        match o.sample_size {
            Some(n) => Some(n as int),
            None => None,
        },
    ) + flagged("all_varchar"@, o.all_varchar)
}

/// A CSV option, rendered as the named argument the reader knows it by.
pub fn csv_arguments(options: &CsvOptions) -> (r: Vec<String>)
    ensures
        text::views(r@) == csv_words(options@),
{
    let mut out: Vec<String> = Vec::new();
    assert(text::views(out@) == Seq::<Seq<char>>::empty());
    add_worded("delim", &options.delimiter, &mut out);
    assert(text::views(out@) == worded("delim"@, options@.delimiter));
    add_worded("quote", &options.quote, &mut out);
    add_worded("escape", &options.escape, &mut out);
    add_worded("decimal_separator", &options.decimal, &mut out);
    add_worded("encoding", &options.encoding, &mut out);
    add_worded("nullstr", &options.null_string, &mut out);
    add_worded("dateformat", &options.date_format, &mut out);
    add_worded("timestampformat", &options.timestamp_format, &mut out);
    add_flagged("header", options.header, &mut out);
    let skip: Option<i128> = match options.skip {
        Some(n) => Some(n as i128),
        None => None,
    };
    add_counted("skip", skip, &mut out);
    add_flagged("ignore_errors", options.ignore_errors, &mut out);
    let sample: Option<i128> = match options.sample_size {
        Some(n) => Some(n as i128),
        None => None,
    };
    add_counted("sample_size", sample, &mut out);
    add_flagged("all_varchar", options.all_varchar, &mut out);
    out
}

/// A reader of JSON needs telling that there is one document per line.
pub open spec fn json_words(format: FileFormat) -> Seq<Seq<char>> {
    if format is JsonLines {
        seq!["format = 'newline_delimited'"@]
    } else {
        Seq::empty()
    }
}

pub fn json_arguments(format: FileFormat) -> (r: Vec<String>)
    ensures
        text::views(r@) == json_words(format),
{
    let mut out: Vec<String> = Vec::new();
    if matches!(format, FileFormat::JsonLines) {
        out.push("format = 'newline_delimited'".to_owned());
    }
    assert(text::views(out@) == json_words(format));
    out
}

// ---------------------------------------------------------------------- data sets

/// One directory's files, as one table, or the single file a file source names.
#[derive(Debug)]
pub struct DataSet {
    /// The name of the table.
    pub name: String,
    /// Every file it unions, alphabetical. An address, not a path: a local file with
    /// forward slashes, or a URL in a storage account.
    pub files: Vec<String>,
    pub format: FileFormat,
    /// Which sheet, for spreadsheets.
    pub sheet: Option<String>,
    /// Whether the rows carry [`FILE_COLUMN`].
    pub tagged: bool,
}

#[verifier::ext_equal]
pub struct DataSetView {
    pub name: Seq<char>,
    pub files: Seq<Seq<char>>,
    pub format: FileFormat,
    pub sheet: Option<Seq<char>>,
    pub tagged: bool,
}

impl View for DataSet {
    type V = DataSetView;

    open spec fn view(&self) -> DataSetView {
        DataSetView {
            name: self.name@,
            files: text::views(self.files@),
            format: self.format,
            sheet: text::opt(self.sheet),
            tagged: self.tagged,
        }
    }
}

impl Clone for DataSet {
    fn clone(&self) -> (r: Self)
        ensures
            r@ == self@,
    {
        DataSet {
            name: self.name.clone(),
            files: text::clone_all(&self.files),
            format: self.format,
            sheet: text::clone_opt(&self.sheet),
            tagged: self.tagged,
        }
    }
}

pub open spec fn sets_view(sets: Seq<DataSet>) -> Seq<DataSetView> {
    Seq::new(sets.len(), |i: int| sets[i]@)
}

/// What the reader of a data set is called with: the files, the options its format
/// takes, and the file names where they are asked for.
pub open spec fn arguments(set: DataSetView, options: FileOptionsView) -> Seq<Seq<char>> {
    let files = if set.tagged {
        "["@ + quote::literals(set.files) + "]"@
    } else {
        text::join(quoted_files(set.files), ""@)
    };
    seq![files] + (match set.format {
        FileFormat::Csv => csv_words(options.csv),
        FileFormat::Json | FileFormat::JsonLines => json_words(set.format),
        _ => Seq::empty(),
    }) + if set.tagged {
        seq!["filename = true"@]
    } else {
        Seq::empty()
    }
}

pub open spec fn quoted_files(files: Seq<Seq<char>>) -> Seq<Seq<char>> {
    Seq::new(files.len(), |i: int| quote::literal(files[i]))
}

/// The `SELECT` whose rows are a data set. None for a spreadsheet, which no function
/// reads.
///
/// A list of paths rather than a pattern: the files have already been chosen, and a
/// pattern would have to escape what an ordinary file name may hold.
pub open spec fn select(set: DataSetView, options: FileOptionsView) -> Option<Seq<char>> {
    match reads(set.format) {
        None => None,
        Some(function) => if set.format is Delta {
            if set.files.len() == 0 {
                None
            } else {
                Some("SELECT * FROM "@ + function + "("@ + quote::literal(set.files[0]) + ")"@)
            }
        } else {
            let scan = function + "("@ + text::join(arguments(set, options), ", "@) + ")"@;
            Some(
                if set.tagged {
                    "SELECT * EXCLUDE (filename), parse_filename(filename, trim_extension := true, separator := 'both') AS "@
                        + quote::identifier(FILE_COLUMN@) + " FROM "@ + scan
                } else {
                    "SELECT * FROM "@ + scan
                },
            )
        },
    }
}

/// What to name in an error: the one file, or the directory holding them.
pub open spec fn called(set: DataSetView) -> Seq<char> {
    if set.files.len() == 1 {
        set.files[0]
    } else if set.files.len() == 0 {
        set.name
    } else {
        match text::rsplit_once(set.files[0], '/') {
            Some((directory, _)) => directory + " ("@ + text::decimal(set.files.len()) + " files)"@,
            None => set.name,
        }
    }
}

impl DataSet {
    /// The `SELECT` whose rows are this table, or nothing for a spreadsheet.
    pub fn query(&self, options: &FileOptions) -> (r: Option<String>)
        ensures
            text::opt(r) == select(self@, options@),
    {
        let function = match reader(self.format) {
            Some(function) => function,
            None => {
                return None;
            },
        };
        if self.format.is_delta() {
            if self.files.len() == 0 {
                return None;
            }
            return Some(
                "SELECT * FROM ".to_owned().concat(function).concat("(").concat(
                    &quote::quote_literal(&self.files[0]),
                ).concat(")"),
            );
        }
        let files = if self.tagged {
            "[".to_owned().concat(&quote::quoted_list(&self.files)).concat("]")
        } else {
            let quoted = quote::quote_all(&self.files);
            assert(text::views(quoted@) == quoted_files(text::views(self.files@)));
            text::joined(&quoted, "")
        };
        let mut arguments: Vec<String> = Vec::new();
        arguments.push(files);
        assert(text::views(arguments@) == seq![files@]);
        let ghost head = text::views(arguments@);
        let ghost more: Seq<Seq<char>> = match self.format {
            FileFormat::Csv => csv_words(options@.csv),
            FileFormat::Json | FileFormat::JsonLines => json_words(self.format),
            _ => Seq::empty(),
        };
        match self.format {
            FileFormat::Csv => {
                let mut extra = csv_arguments(&options.csv);
                extend(&mut arguments, &mut extra);
            },
            FileFormat::Json | FileFormat::JsonLines => {
                let mut extra = json_arguments(self.format);
                extend(&mut arguments, &mut extra);
            },
            _ => {
                assert(head + Seq::<Seq<char>>::empty() == head);
            },
        }
        assert(text::views(arguments@) == head + more);
        if self.tagged {
            arguments.push("filename = true".to_owned());
            assert(text::views(arguments@) == (head + more) + seq!["filename = true"@]);
        } else {
            assert(text::views(arguments@) == (head + more) + Seq::<Seq<char>>::empty());
        }
        let scan = function.to_owned().concat("(").concat(&text::joined(&arguments, ", ")).concat(
            ")",
        );
        Some(
            if self.tagged {
                "SELECT * EXCLUDE (filename), parse_filename(filename, trim_extension := true, separator := 'both') AS ".to_owned().concat(
                    &quote::quote_identifier(FILE_COLUMN),
                ).concat(" FROM ").concat(&scan)
            } else {
                "SELECT * FROM ".to_owned().concat(&scan)
            },
        )
    }

    /// What to name in an error: the one file, or the directory holding them.
    pub fn label(&self) -> (r: String)
        ensures
            r@ == called(self@),
    {
        if self.files.len() == 1 {
            return self.files[0].clone();
        }
        if self.files.len() > 1 {
            if let Some((directory, _)) = text::split_last(&self.files[0], '/') {
                return directory.concat(" (").concat(
                    &text::decimal_of(self.files.len() as u64),
                ).concat(" files)");
            }
        }
        self.name.clone()
    }
}

fn extend(list: &mut Vec<String>, more: &mut Vec<String>)
    ensures
        text::views(final(list)@) == text::views(old(list)@) + text::views(old(more)@),
{
    let ghost a = list@;
    let ghost b = more@;
    list.append(more);
    assert(text::views(a + b) == text::views(a) + text::views(b));
}

// ------------------------------------------------------------------------ walking

/// One directory's worth of readable files, before it is named.
#[derive(Debug)]
pub struct Directory {
    /// Relative to the source's root, with forward slashes. Empty at the root.
    pub relative: String,
    /// Addresses, in the sense [`DataSet::files`] means.
    pub files: Vec<String>,
}

#[verifier::ext_equal]
pub struct DirectoryView {
    pub relative: Seq<char>,
    pub files: Seq<Seq<char>>,
}

impl View for Directory {
    type V = DirectoryView;

    open spec fn view(&self) -> DirectoryView {
        DirectoryView { relative: self.relative@, files: text::views(self.files@) }
    }
}

pub open spec fn directories_view(directories: Seq<Directory>) -> Seq<DirectoryView> {
    Seq::new(directories.len(), |i: int| directories[i]@)
}

/// A local path as an address: forward slashes, as a URL has anyway.
pub fn address_of(path: &str) -> (r: String)
    ensures
        r@ == tree::slashed(path@),
{
    tree::slash(path)
}

/// A path relative to the root, with forward slashes. Empty for the root itself.
pub fn relative_of(relative: &str) -> (r: String)
    ensures
        r@ == tree::slashed(relative@),
{
    tree::slash(relative)
}

/// Whether any of those is the same but for its case.
pub open spec fn left_out(excluded: Seq<Seq<char>>, path: Seq<char>) -> bool {
    exists|i: int|
        0 <= i < excluded.len() && text::same_but_case(#[trigger] excluded[i], path)
}

pub fn is_left_out(excluded: &Vec<String>, path: &str) -> (r: bool)
    ensures
        r == left_out(text::views(excluded@), path@),
{
    let ghost all = text::views(excluded@);
    let mut i: usize = 0;
    while i < excluded.len()
        invariant
            i <= excluded.len(),
            all == text::views(excluded@),
            forall|j: int| 0 <= j < i ==> !text::same_but_case(#[trigger] all[j], path@),
        decreases excluded.len() - i,
    {
        assert(all[i as int] == excluded@[i as int]@);
        if text::eq_ignore_case(&excluded[i], path) {
            return true;
        }
        i = i + 1;
    }
    false
}

/// Whether a source reads a file: it has an extension of the declared format, or of any
/// where none is declared, and it was not left out. `relative` is the file's path below
/// the root, with `/` between its names on every platform.
pub open spec fn kept(
    relative: Seq<char>,
    format: Option<FileFormat>,
    excluded: Seq<Seq<char>>,
) -> bool {
    (match paths::extension(relative, false) {
        Some(extension) => match format {
            Some(declared) => declared.extension_list().contains(text::ascii_lower(extension)),
            None => FileFormat::for_extension(extension) is Some,
        },
        None => false,
    }) && !left_out(excluded, tree::slashed(relative))
}

/// Whether this source reads the file at `relative`.
///
/// A declared format narrows the folder to that format's own extensions: say "parquet"
/// and a stray `notes.csv` stops being data.
pub fn keeps(relative: &str, format: Option<FileFormat>, excluded: &Vec<String>) -> (r: bool)
    ensures
        r == kept(relative@, format, text::views(excluded@)),
{
    let readable = match paths::extension_of(relative, false) {
        Some(extension) => match format {
            Some(declared) => declared.has(&text::to_ascii_lower(&extension)),
            None => FileFormat::from_extension(&extension).is_some(),
        },
        None => false,
    };
    readable && !is_left_out(excluded, &relative_of(relative))
}

/// The names of the files of a directory that are read, at most so many.
pub open spec fn read_here(
    children: Seq<ChildView>,
    relative: Seq<char>,
    format: Option<FileFormat>,
    excluded: Seq<Seq<char>>,
    limit: nat,
) -> Seq<Seq<char>>
    decreases children.len(),
{
    if children.len() == 0 {
        Seq::empty()
    } else {
        let before = read_here(children.drop_last(), relative, format, excluded, limit);
        match children.last() {
            ChildView::File { name, .. } => if before.len() < limit && kept(
                tree::under(relative, name),
                format,
                excluded,
            ) {
                before.push(name)
            } else {
                before
            },
            ChildView::Folder { .. } => before,
        }
    }
}

/// The folders of a directory that are walked.
pub open spec fn walked_folders(children: Seq<ChildView>) -> Seq<(Seq<char>, Seq<ChildView>)>
    decreases children.len(),
{
    if children.len() == 0 {
        Seq::empty()
    } else {
        let before = walked_folders(children.drop_last());
        match children.last() {
            ChildView::File { .. } => before,
            ChildView::Folder { name, children: inside } => if tree::passed_over(name) {
                before
            } else {
                before.push((name, inside))
            },
        }
    }
}

/// The address of each of those files of a directory.
pub open spec fn addresses(
    here: Seq<char>,
    windows: bool,
    names: Seq<Seq<char>>,
) -> Seq<Seq<char>> {
    Seq::new(names.len(), |i: int| tree::slashed(paths::join(here, names[i], windows)))
}

/// What a walk has found so far, and how many files that is.
#[verifier::ext_equal]
pub struct Found {
    pub directories: Seq<DirectoryView>,
    pub count: nat,
}

/// What a directory and the ones below it add. `here` is its path, `relative` the same
/// below the root.
pub open spec fn collected(
    children: Seq<ChildView>,
    here: Seq<char>,
    windows: bool,
    relative: Seq<char>,
    depth: nat,
    format: Option<FileFormat>,
    excluded: Seq<Seq<char>>,
    found: Found,
) -> Found
    decreases MAX_DEPTH + 1 - depth, 0nat,
{
    if depth > MAX_DEPTH || found.count >= MAX_FILES {
        found
    } else {
        let names = read_here(
            children,
            relative,
            format,
            excluded,
            (MAX_FILES - found.count) as nat,
        );
        let next = Found {
            directories: if names.len() == 0 {
                found.directories
            } else {
                found.directories.push(
                    DirectoryView {
                        relative: tree::slashed(relative),
                        files: order::alphabetical(addresses(here, windows, names)),
                    },
                )
            },
            count: found.count + names.len(),
        };
        collected_all(
            order::sorted_by(walked_folders(children), tree::by_folder()),
            here,
            windows,
            relative,
            depth + 1,
            format,
            excluded,
            next,
        )
    }
}

/// What those folders of a directory add, one after the other.
pub open spec fn collected_all(
    folders: Seq<(Seq<char>, Seq<ChildView>)>,
    here: Seq<char>,
    windows: bool,
    relative: Seq<char>,
    depth: nat,
    format: Option<FileFormat>,
    excluded: Seq<Seq<char>>,
    found: Found,
) -> Found
    decreases MAX_DEPTH + 1 - depth, folders.len() + 1,
{
    if folders.len() == 0 {
        found
    } else {
        let before = collected_all(
            folders.drop_last(),
            here,
            windows,
            relative,
            depth,
            format,
            excluded,
            found,
        );
        let (name, inside) = folders.last();
        collected(
            inside,
            paths::join(here, name, windows),
            windows,
            tree::under(relative, name),
            depth,
            format,
            excluded,
            before,
        )
    }
}

/// The folders of a directory that are walked, in alphabetical order.
fn folders_of<'a>(children: &'a Vec<Child>) -> (r: Vec<Branch<'a>>)
    ensures
        Seq::new(r@.len(), |i: int| r@[i].shape()) == order::sorted_by(
            walked_folders(tree::seen(children@)),
            tree::by_folder(),
        ),
{
    let ghost all = tree::seen(children@);
    let ghost f = |b: Branch<'a>| b.shape();
    let mut out: Vec<Branch<'a>> = Vec::new();
    let mut i: usize = 0;
    assert(out@.map_values(f) == walked_folders(all.take(0)));
    while i < children.len()
        invariant
            i <= children.len(),
            all == tree::seen(children@),
            f == (|b: Branch<'a>| b.shape()),
            out@.map_values(f) == walked_folders(all.take(i as int)),
        decreases children.len() - i,
    {
        let ghost before = out@.map_values(f);
        assert(all.take(i as int + 1).drop_last() == all.take(i as int));
        assert(all.take(i as int + 1).last() == children@[i as int]@);
        if let Child::Folder { name, children: inside } = &children[i] {
            proof {
                tree::lemma_folder(children@[i as int]);
            }
            if !tree::is_passed_over(name) {
                out.push(Branch { name, children: inside });
                assert(out@.map_values(f) == before.push((name@, tree::seen(inside@))));
            }
        }
        i = i + 1;
    }
    assert(all.take(i as int) == all);
    let r = order::sort(out);
    proof {
        order::lemma_sorted_views(out@, f, tree::by_folder());
        assert(r@.map_values(f) == Seq::new(r@.len(), |i: int| r@[i].shape()));
    }
    r
}

/// The addresses of the files of a directory that are read, at most so many.
fn files_of(
    children: &Vec<Child>,
    here: &str,
    windows: bool,
    relative: &str,
    format: Option<FileFormat>,
    excluded: &Vec<String>,
    limit: usize,
) -> (r: Vec<String>)
    ensures
        text::views(r@) == order::alphabetical(
            addresses(
                here@,
                windows,
                read_here(
                    tree::seen(children@),
                    relative@,
                    format,
                    text::views(excluded@),
                    limit as nat,
                ),
            ),
        ),
        r@.len() == read_here(
            tree::seen(children@),
            relative@,
            format,
            text::views(excluded@),
            limit as nat,
        ).len(),
{
    let ghost all = tree::seen(children@);
    let ghost left = text::views(excluded@);
    let mut out: Vec<String> = Vec::new();
    let mut i: usize = 0;
    assert(text::views(out@) == addresses(
        here@,
        windows,
        read_here(all.take(0), relative@, format, left, limit as nat),
    ));
    while i < children.len()
        invariant
            i <= children.len(),
            all == tree::seen(children@),
            left == text::views(excluded@),
            text::views(out@) == addresses(
                here@,
                windows,
                read_here(all.take(i as int), relative@, format, left, limit as nat),
            ),
        decreases children.len() - i,
    {
        let ghost before = text::views(out@);
        let ghost names = read_here(all.take(i as int), relative@, format, left, limit as nat);
        assert(before.len() == out@.len());
        assert(all.take(i as int + 1).drop_last() == all.take(i as int));
        assert(all.take(i as int + 1).last() == children@[i as int]@);
        if let Child::File { name, .. } = &children[i] {
            if out.len() < limit && keeps(&tree::below(relative, name), format, excluded) {
                out.push(address_of(&paths::joined(here, name, windows)));
                let ghost address = tree::slashed(paths::join(here@, name@, windows));
                assert(text::views(out@) == before.push(address));
                assert(addresses(here@, windows, names.push(name@)) == before.push(address));
            }
        }
        i = i + 1;
    }
    assert(all.take(i as int) == all);
    let ghost found = text::views(out@);
    let r = order::sort_names(out);
    proof {
        order::lemma_sorted_by_multiset(found, order::by_text());
        assert(text::views(r@).len() == r@.len());
    }
    r
}

fn collect(
    children: &Vec<Child>,
    here: &str,
    windows: bool,
    relative: &str,
    depth: usize,
    format: Option<FileFormat>,
    excluded: &Vec<String>,
    out: &mut Vec<Directory>,
    count: &mut usize,
)
    requires
        depth <= MAX_DEPTH + 1,
        *old(count) <= MAX_FILES,
    ensures
        (Found { directories: directories_view(final(out)@), count: *final(count) as nat })
            == collected(
            tree::seen(children@),
            here@,
            windows,
            relative@,
            depth as nat,
            format,
            text::views(excluded@),
            Found { directories: directories_view(old(out)@), count: *old(count) as nat },
        ),
        *final(count) <= MAX_FILES,
    decreases MAX_DEPTH + 1 - depth,
{
    if depth > MAX_DEPTH || *count >= MAX_FILES {
        return;
    }
    let ghost left = text::views(excluded@);
    let ghost start = directories_view(out@);
    let files = files_of(children, here, windows, relative, format, excluded, MAX_FILES - *count);
    proof {
        lemma_read_here(
            tree::seen(children@),
            relative@,
            format,
            left,
            (MAX_FILES - *count) as nat,
        );
    }
    *count = *count + files.len();
    if files.len() > 0 {
        let directory = Directory { relative: relative_of(relative), files };
        let ghost pushed = directory@;
        out.push(directory);
        assert(directories_view(out@) == start.push(pushed));
    }
    let ghost next = Found { directories: directories_view(out@), count: *count as nat };
    let folders = folders_of(children);
    let ghost shapes = Seq::new(folders@.len(), |i: int| folders@[i].shape());
    let mut i: usize = 0;
    assert(shapes.take(0) == Seq::<(Seq<char>, Seq<ChildView>)>::empty());
    while i < folders.len()
        invariant
            i <= folders.len(),
            depth <= MAX_DEPTH,
            *count <= MAX_FILES,
            left == text::views(excluded@),
            shapes == Seq::new(folders@.len(), |j: int| folders@[j].shape()),
            (Found { directories: directories_view(out@), count: *count as nat })
                == collected_all(
                shapes.take(i as int),
                here@,
                windows,
                relative@,
                (depth + 1) as nat,
                format,
                left,
                next,
            ),
        decreases folders.len() - i,
    {
        let name = folders[i].name;
        let inside = folders[i].children;
        assert(shapes.take(i as int + 1).drop_last() == shapes.take(i as int));
        assert(shapes.take(i as int + 1).last() == (name@, tree::seen(inside@)));
        collect(
            inside,
            &paths::joined(here, name, windows),
            windows,
            &tree::below(relative, name),
            depth + 1,
            format,
            excluded,
            out,
            count,
        );
        i = i + 1;
    }
    assert(shapes.take(i as int) == shapes);
}

proof fn lemma_read_here(
    children: Seq<ChildView>,
    relative: Seq<char>,
    format: Option<FileFormat>,
    excluded: Seq<Seq<char>>,
    limit: nat,
)
    ensures
        read_here(children, relative, format, excluded, limit).len() <= limit,
        forall|i: int|
            0 <= i < read_here(children, relative, format, excluded, limit).len() ==> kept(
                tree::under(
                    relative,
                    #[trigger] read_here(children, relative, format, excluded, limit)[i],
                ),
                format,
                excluded,
            ),
    decreases children.len(),
{
    if children.len() > 0 {
        lemma_read_here(children.drop_last(), relative, format, excluded, limit);
    }
}

/// Nothing found yet.
pub open spec fn nothing() -> Found {
    Found { directories: Seq::empty(), count: 0 }
}

/// What a folder holds that is read, directory by directory.
pub open spec fn holdings(
    children: Seq<ChildView>,
    root: Seq<char>,
    windows: bool,
    format: Option<FileFormat>,
    excluded: Seq<Seq<char>>,
) -> Seq<DirectoryView> {
    collected(children, root, windows, Seq::empty(), 0, format, excluded, nothing()).directories
}

/// What a folder holds that is read, directory by directory. `root` is its path.
pub fn directories(
    children: &Vec<Child>,
    root: &str,
    windows: bool,
    format: Option<FileFormat>,
    excluded: &Vec<String>,
) -> (r: Vec<Directory>)
    ensures
        directories_view(r@) == holdings(
            tree::seen(children@),
            root@,
            windows,
            format,
            text::views(excluded@),
        ),
{
    let mut out: Vec<Directory> = Vec::new();
    let mut count: usize = 0;
    assert(directories_view(out@) == Seq::<DirectoryView>::empty());
    let top = "";
    proof {
        reveal_strlit("");
        assert(top@ == Seq::<char>::empty());
    }
    collect(children, root, windows, top, 0, format, excluded, &mut out, &mut count);
    out
}

/// The last segment of an address.
pub open spec fn filename(address: Seq<char>) -> Seq<char> {
    match text::rsplit_once(address, '/') {
        Some((_, name)) => name,
        None => address,
    }
}

pub fn filename_of(address: &str) -> (r: String)
    ensures
        r@ == filename(address@),
{
    match text::split_last(address, '/') {
        Some((_, name)) => name,
        None => address.to_owned(),
    }
}

/// The files of a directory by their names, below its own.
pub open spec fn listed(directory: DirectoryView) -> Seq<Seq<char>> {
    Seq::new(
        directory.files.len(),
        |i: int| tree::under(directory.relative, filename(directory.files[i])),
    )
}

pub open spec fn listed_all(directories: Seq<DirectoryView>) -> Seq<Seq<char>>
    decreases directories.len(),
{
    if directories.len() == 0 {
        Seq::empty()
    } else {
        listed_all(directories.drop_last()) + listed(directories.last())
    }
}

/// The files a folder source could read, relative to its root: what the file list of a
/// source offers.
///
/// What the source leaves out is still listed, or it could never be put back.
pub fn candidates(
    children: &Vec<Child>,
    root: &str,
    windows: bool,
    options: &FileOptions,
) -> (r: Vec<String>)
    ensures
        text::views(r@) == order::alphabetical(
            listed_all(
                holdings(tree::seen(children@), root@, windows, options@.format, Seq::empty()),
            ),
        ),
{
    let none: Vec<String> = Vec::new();
    assert(text::views(none@) == Seq::<Seq<char>>::empty());
    let found = directories(children, root, windows, options.format, &none);
    let ghost all = directories_view(found@);
    let mut out: Vec<String> = Vec::new();
    let mut i: usize = 0;
    assert(text::views(out@) == listed_all(all.take(0)));
    while i < found.len()
        invariant
            i <= found.len(),
            all == directories_view(found@),
            text::views(out@) == listed_all(all.take(i as int)),
        decreases found.len() - i,
    {
        let ghost start = text::views(out@);
        let ghost names = listed(found@[i as int]@);
        let mut j: usize = 0;
        assert(start + names.take(0) == start);
        while j < found[i].files.len()
            invariant
                i < found.len(),
                j <= found@[i as int].files@.len(),
                names == listed(found@[i as int]@),
                text::views(out@) == start + names.take(j as int),
            decreases found@[i as int].files@.len() - j,
        {
            let ghost before = text::views(out@);
            out.push(tree::below(&found[i].relative, &filename_of(&found[i].files[j])));
            assert(text::views(out@) == before.push(names[j as int]));
            assert(names.take(j as int + 1) == names.take(j as int).push(names[j as int]));
            j = j + 1;
        }
        assert(names.take(j as int) == names);
        assert(all.take(i as int + 1).drop_last() == all.take(i as int));
        i = i + 1;
    }
    assert(all.take(i as int) == all);
    order::sort_names(out)
}

// ------------------------------------------------------------------------- naming

/// `name` with a number behind it.
pub open spec fn suffixed(name: Seq<char>, k: nat) -> Seq<char> {
    name + "_"@ + text::decimal(k)
}

/// The first number, from two on, that makes a name nobody has.
pub open spec fn is_first_free(name: Seq<char>, taken: Seq<Seq<char>>, k: nat) -> bool {
    &&& k >= 2
    &&& !taken.contains(suffixed(name, k))
    &&& forall|j: nat| 2 <= j < k ==> taken.contains(#[trigger] suffixed(name, j))
}

pub open spec fn first_free(name: Seq<char>, taken: Seq<Seq<char>>) -> nat {
    choose|k: nat| is_first_free(name, taken, k)
}

/// `name`, or the first of `name_2`, `name_3`… that nothing else has claimed.
pub open spec fn unclaimed(name: Seq<char>, taken: Seq<Seq<char>>) -> Seq<char> {
    if taken.contains(name) {
        suffixed(name, first_free(name, taken))
    } else {
        name
    }
}

proof fn lemma_suffixed(name: Seq<char>, j: nat, k: nat)
    requires
        suffixed(name, j) == suffixed(name, k),
    ensures
        j == k,
{
    let head = name + "_"@;
    assert(suffixed(name, j).skip(head.len() as int) == text::decimal(j));
    assert(suffixed(name, k).skip(head.len() as int) == text::decimal(k));
    text::lemma_decimal(j);
    text::lemma_decimal(k);
}

/// So many different names cannot all be among fewer.
proof fn lemma_taken(name: Seq<char>, taken: Seq<Seq<char>>, m: nat)
    requires
        forall|j: nat| 2 <= j < 2 + m ==> taken.contains(#[trigger] suffixed(name, j)),
    ensures
        m <= taken.len(),
{
    let all = Seq::new(m, |i: int| suffixed(name, (i + 2) as nat));
    assert(all.no_duplicates()) by {
        assert forall|i: int, j: int|
            0 <= i < all.len() && 0 <= j < all.len() && i != j implies all[i] != all[j] by {
            if all[i] == all[j] {
                lemma_suffixed(name, (i + 2) as nat, (j + 2) as nat);
            }
        }
    }
    all.unique_seq_to_set();
    taken.lemma_cardinality_of_set();
    assert forall|s: Seq<char>| all.to_set().contains(s) implies taken.to_set().contains(s) by {
        let i = choose|i: int| 0 <= i < all.len() && all[i] == s;
        assert(taken.contains(suffixed(name, (i + 2) as nat)));
    }
    vstd::set_lib::lemma_len_subset(all.to_set(), taken.to_set());
}

proof fn lemma_search(name: Seq<char>, taken: Seq<Seq<char>>, k: nat)
    requires
        k >= 2,
        forall|j: nat| 2 <= j < k ==> taken.contains(#[trigger] suffixed(name, j)),
    ensures
        is_first_free(name, taken, first_free(name, taken)),
    decreases taken.len() + 2 - k,
{
    lemma_taken(name, taken, (k - 2) as nat);
    if taken.contains(suffixed(name, k)) {
        assert forall|j: nat| 2 <= j < k + 1 implies taken.contains(
            #[trigger] suffixed(name, j),
        ) by {
            if j == k {
            }
        }
        lemma_taken(name, taken, (k - 1) as nat);
        lemma_search(name, taken, k + 1);
    } else {
        assert(is_first_free(name, taken, k));
    }
}

proof fn lemma_first_free(name: Seq<char>, taken: Seq<Seq<char>>, k: nat)
    requires
        is_first_free(name, taken, k),
    ensures
        first_free(name, taken) == k,
{
    let other = first_free(name, taken);
    assert(is_first_free(name, taken, other));
    if other < k {
        assert(taken.contains(suffixed(name, other)));
    } else if k < other {
        assert(taken.contains(suffixed(name, k)));
    }
}

/// A name made this way is one that nobody has.
pub proof fn law_an_unclaimed_name_is_unclaimed(name: Seq<char>, taken: Seq<Seq<char>>)
    ensures
        !taken.contains(unclaimed(name, taken)),
{
    if taken.contains(name) {
        lemma_search(name, taken, 2);
    }
}

/// `name`, or the first of `name_2`, `name_3`… that nothing else has claimed; claimed
/// now.
pub fn unique(name: String, taken: &mut Vec<String>) -> (r: String)
    ensures
        r@ == unclaimed(name@, text::views(old(taken)@)),
        text::views(final(taken)@) == text::views(old(taken)@).push(r@),
{
    let ghost all = text::views(taken@);
    if !session::is_listed(taken, &name) {
        taken.push(name.clone());
        assert(text::views(taken@) == all.push(name@));
        return name;
    }
    let mut suffix: u128 = 2;
    loop
        invariant
            suffix >= 2,
            all == text::views(taken@),
            all == text::views(old(taken)@),
            all.contains(name@),
            forall|j: nat| 2 <= j < suffix ==> all.contains(#[trigger] suffixed(name@, j)),
        decreases all.len() + 2 - suffix,
    {
        proof {
            lemma_taken(name@, all, (suffix - 2) as nat);
        }
        let candidate = name.clone().concat("_").concat(&text::decimal_wide(suffix));
        if !session::is_listed(taken, &candidate) {
            proof {
                lemma_first_free(name@, all, suffix as nat);
            }
            taken.push(candidate.clone());
            assert(text::views(taken@) == all.push(candidate@));
            return candidate;
        }
        proof {
            assert forall|j: nat| 2 <= j < suffix + 1 implies all.contains(
                #[trigger] suffixed(name@, j),
            ) by {
                if j == suffix {
                }
            }
            lemma_taken(name@, all, (suffix - 1) as nat);
            assert(all.len() == taken.len());
        }
        suffix = suffix + 1;
    }
}

/// What comes before the last dot of a file name. A leading dot is a name, not an
/// extension.
pub open spec fn stem_of(name: Seq<char>) -> Seq<char> {
    match text::rsplit_once(name, '.') {
        Some((stem, _)) => if stem.len() > 0 {
            stem
        } else {
            name
        },
        None => name,
    }
}

pub fn stem(name: &str) -> (r: String)
    ensures
        r@ == stem_of(name@),
{
    match text::split_last(name, '.') {
        Some((stem, _)) => if stem.as_str().is_empty() {
            name.to_owned()
        } else {
            stem
        },
        None => name.to_owned(),
    }
}

/// The first choice of a name, or an unclaimed one made of the second.
pub open spec fn chosen(first: Seq<char>, second: Seq<char>, taken: Seq<Seq<char>>) -> Seq<char> {
    if taken.contains(first) {
        unclaimed(second, taken)
    } else {
        first
    }
}

fn choose_name(first: String, second: String, taken: &mut Vec<String>) -> (r: String)
    ensures
        r@ == chosen(first@, second@, text::views(old(taken)@)),
        text::views(final(taken)@) == text::views(old(taken)@).push(r@),
{
    let ghost all = text::views(taken@);
    if session::is_listed(taken, &first) {
        unique(second, taken)
    } else {
        taken.push(first.clone());
        assert(text::views(taken@) == all.push(first@));
        first
    }
}

/// The name of a table over the file at that address: its stem, or its whole file name
/// where the stem is claimed already.
pub open spec fn file_table(address: Seq<char>, taken: Seq<Seq<char>>) -> Seq<char> {
    let name = filename(address);
    chosen(
        if stem_of(name).len() == 0 {
            "data"@
        } else {
            stem_of(name)
        },
        name,
        taken,
    )
}

/// The table name for a file at the root: its stem, `customers.parquet` being
/// `customers`.
pub fn stem_for(address: &str, taken: &mut Vec<String>) -> (r: String)
    ensures
        r@ == file_table(address@, text::views(old(taken)@)),
        text::views(final(taken)@) == text::views(old(taken)@).push(r@),
{
    let name = filename_of(address);
    let own = stem(&name);
    let own = if own.as_str().is_empty() {
        "data".to_owned()
    } else {
        own
    };
    choose_name(own, name, taken)
}

/// The name of a table over a directory: its own, or its whole path where that is
/// claimed already.
pub open spec fn folder_table(relative: Seq<char>, taken: Seq<Seq<char>>) -> Seq<char> {
    chosen(
        if filename(relative).len() == 0 {
            relative
        } else {
            filename(relative)
        },
        text::replace_char(relative, '/', "_"@),
        taken,
    )
}

/// The table name for one subdirectory.
pub fn name_for(relative: &str, taken: &mut Vec<String>) -> (r: String)
    ensures
        r@ == folder_table(relative@, text::views(old(taken)@)),
        text::views(final(taken)@) == text::views(old(taken)@).push(r@),
{
    let own = filename_of(relative);
    let own = if own.as_str().is_empty() {
        relative.to_owned()
    } else {
        own
    };
    choose_name(own, text::replaced(relative, '/', "_"), taken)
}

/// The names of those tables.
pub open spec fn table_names(sets: Seq<DataSetView>) -> Seq<Seq<char>> {
    Seq::new(sets.len(), |i: int| sets[i].name)
}

/// A table of its own for each of those files.
pub open spec fn with_files(
    sets: Seq<DataSetView>,
    files: Seq<Seq<char>>,
    format: FileFormat,
) -> Seq<DataSetView>
    decreases files.len(),
{
    if files.len() == 0 {
        sets
    } else {
        let before = with_files(sets, files.drop_last(), format);
        before.push(
            DataSetView {
                name: file_table(files.last(), table_names(before)),
                files: seq![files.last()],
                format,
                sheet: None,
                tagged: false,
            },
        )
    }
}

/// One table for each of those directories.
pub open spec fn with_folders(
    sets: Seq<DataSetView>,
    directories: Seq<DirectoryView>,
    format: FileFormat,
) -> Seq<DataSetView>
    decreases directories.len(),
{
    if directories.len() == 0 {
        sets
    } else {
        let before = with_folders(sets, directories.drop_last(), format);
        before.push(
            DataSetView {
                name: folder_table(directories.last().relative, table_names(before)),
                files: directories.last().files,
                format,
                sheet: None,
                tagged: true,
            },
        )
    }
}

/// Where the root is among those directories.
pub open spec fn root_at(directories: Seq<DirectoryView>, from: nat) -> Option<nat>
    decreases directories.len() - from,
{
    if from >= directories.len() {
        None
    } else if directories[from as int].relative.len() == 0 {
        Some(from)
    } else {
        root_at(directories, from + 1)
    }
}

/// Directories as tables. The root first, so that its file names win a collision with a
/// subdirectory's.
pub open spec fn grouped(directories: Seq<DirectoryView>, format: FileFormat) -> Seq<DataSetView> {
    match root_at(directories, 0) {
        Some(at) => with_folders(
            with_files(Seq::empty(), directories[at as int].files, format),
            directories.remove(at as int),
            format,
        ),
        None => with_folders(Seq::empty(), directories, format),
    }
}

fn add_files(
    sets: &mut Vec<DataSet>,
    taken: &mut Vec<String>,
    files: &Vec<String>,
    format: FileFormat,
)
    requires
        text::views(old(taken)@) == table_names(sets_view(old(sets)@)),
    ensures
        text::views(final(taken)@) == table_names(sets_view(final(sets)@)),
        sets_view(final(sets)@) == with_files(
            sets_view(old(sets)@),
            text::views(files@),
            format,
        ),
{
    let ghost all = text::views(files@);
    let ghost start = sets_view(sets@);
    let mut i: usize = 0;
    assert(all.take(0) == Seq::<Seq<char>>::empty());
    while i < files.len()
        invariant
            i <= files.len(),
            all == text::views(files@),
            text::views(taken@) == table_names(sets_view(sets@)),
            sets_view(sets@) == with_files(start, all.take(i as int), format),
        decreases files.len() - i,
    {
        let ghost before = sets_view(sets@);
        let mut one: Vec<String> = Vec::new();
        one.push(files[i].clone());
        assert(text::views(one@) == seq![all[i as int]]);
        let set = DataSet {
            name: stem_for(&files[i], taken),
            files: one,
            format,
            sheet: None,
            tagged: false,
        };
        let ghost pushed = set@;
        sets.push(set);
        assert(sets_view(sets@) == before.push(pushed));
        assert(table_names(before.push(pushed)) == table_names(before).push(pushed.name));
        assert(all.take(i as int + 1).drop_last() == all.take(i as int));
        i = i + 1;
    }
    assert(all.take(i as int) == all);
}

fn add_folders(
    sets: &mut Vec<DataSet>,
    taken: &mut Vec<String>,
    directories: &Vec<Directory>,
    format: FileFormat,
)
    requires
        text::views(old(taken)@) == table_names(sets_view(old(sets)@)),
    ensures
        text::views(final(taken)@) == table_names(sets_view(final(sets)@)),
        sets_view(final(sets)@) == with_folders(
            sets_view(old(sets)@),
            directories_view(directories@),
            format,
        ),
{
    let ghost all = directories_view(directories@);
    let ghost start = sets_view(sets@);
    let mut i: usize = 0;
    assert(all.take(0) == Seq::<DirectoryView>::empty());
    while i < directories.len()
        invariant
            i <= directories.len(),
            all == directories_view(directories@),
            text::views(taken@) == table_names(sets_view(sets@)),
            sets_view(sets@) == with_folders(start, all.take(i as int), format),
        decreases directories.len() - i,
    {
        let ghost before = sets_view(sets@);
        let set = DataSet {
            name: name_for(&directories[i].relative, taken),
            files: text::clone_all(&directories[i].files),
            format,
            sheet: None,
            tagged: true,
        };
        let ghost pushed = set@;
        sets.push(set);
        assert(sets_view(sets@) == before.push(pushed));
        assert(table_names(before.push(pushed)) == table_names(before).push(pushed.name));
        assert(all.take(i as int + 1).drop_last() == all.take(i as int));
        i = i + 1;
    }
    assert(all.take(i as int) == all);
}

/// Directories as named tables, before their spreadsheets are taken apart.
pub fn group(directories: Vec<Directory>, format: FileFormat) -> (r: Vec<DataSet>)
    ensures
        sets_view(r@) == grouped(directories_view(directories@), format),
{
    let mut directories = directories;
    let ghost all = directories_view(directories@);
    let mut sets: Vec<DataSet> = Vec::new();
    let mut taken: Vec<String> = Vec::new();
    assert(sets_view(sets@) == Seq::<DataSetView>::empty());
    assert(text::views(taken@) == table_names(sets_view(sets@)));
    let mut at: usize = 0;
    while at < directories.len() && !directories[at].relative.as_str().is_empty()
        invariant
            at <= directories.len(),
            all == directories_view(directories@),
            root_at(all, 0) == root_at(all, at as nat),
        decreases directories.len() - at,
    {
        assert(all[at as int] == directories@[at as int]@);
        at = at + 1;
    }
    if at < directories.len() {
        assert(all[at as int] == directories@[at as int]@);
        let root = directories.remove(at);
        assert(root@ == all[at as int]);
        assert(directories_view(directories@) == all.remove(at as int));
        add_files(&mut sets, &mut taken, &root.files, format);
    }
    add_folders(&mut sets, &mut taken, &directories, format);
    sets
}

// ------------------------------------------------------------------- spreadsheets

/// A table per sheet, where there is more than one.
pub open spec fn per_sheet(set: DataSetView, sheets: Seq<Seq<char>>) -> Seq<DataSetView> {
    Seq::new(
        sheets.len(),
        |i: int|
            DataSetView {
                name: set.name + "_"@ + sheets[i],
                sheet: Some(sheets[i]),
                ..set
            },
    )
}

/// What a data set becomes when its spreadsheets are taken apart: the one sheet that was
/// asked for, or the only one there is, or a table for each. One whose workbook could
/// not be listed stays as it is, and says why when it is used.
pub open spec fn apart(
    set: DataSetView,
    wanted: Option<Seq<char>>,
    sheets: Map<Seq<char>, Vec<String>>,
) -> Seq<DataSetView> {
    if !(set.format is Excel) {
        seq![set]
    } else if wanted is Some {
        seq![DataSetView { sheet: wanted, ..set }]
    } else if set.files.len() > 0 && sheets.contains_key(set.files[0]) {
        let names = text::views(sheets[set.files[0]]@);
        if names.len() == 0 {
            seq![set]
        } else if names.len() == 1 {
            seq![DataSetView { sheet: Some(names[0]), ..set }]
        } else {
            per_sheet(set, names)
        }
    } else {
        seq![set]
    }
}

pub open spec fn all_apart(
    sets: Seq<DataSetView>,
    wanted: Option<Seq<char>>,
    sheets: Map<Seq<char>, Vec<String>>,
) -> Seq<DataSetView>
    decreases sets.len(),
{
    if sets.len() == 0 {
        Seq::empty()
    } else {
        all_apart(sets.drop_last(), wanted, sheets) + apart(sets.last(), wanted, sheets)
    }
}

fn expand_one(
    set: &DataSet,
    options: &FileOptions,
    sheets: &table::Table<Vec<String>>,
    out: &mut Vec<DataSet>,
)
    requires
        sheets.wf(),
    ensures
        sets_view(final(out)@) == sets_view(old(out)@) + apart(set@, options@.sheet, sheets@),
{
    let ghost start = sets_view(out@);
    if set.format.is_excel() {
        if let Some(wanted) = &options.excel.sheet {
            let mut one = set.clone();
            one.sheet = Some(wanted.clone());
            out.push(one);
            assert(sets_view(out@) == start + apart(set@, options@.sheet, sheets@));
            return;
        }
        if set.files.len() > 0 {
            if let Some(names) = sheets.get(&set.files[0]) {
                let ghost all = text::views(names@);
                if names.len() == 1 {
                    let mut one = set.clone();
                    one.sheet = Some(names[0].clone());
                    out.push(one);
                    assert(sets_view(out@) == start + apart(set@, options@.sheet, sheets@));
                    return;
                }
                if names.len() > 1 {
                    let ghost made = per_sheet(set@, all);
                    let mut i: usize = 0;
                    assert(start + made.take(0) == start);
                    while i < names.len()
                        invariant
                            i <= names.len(),
                            all == text::views(names@),
                            made == per_sheet(set@, all),
                            sets_view(out@) == start + made.take(i as int),
                        decreases names.len() - i,
                    {
                        let ghost before = sets_view(out@);
                        let mut one = set.clone();
                        one.name = set.name.clone().concat("_").concat(&names[i]);
                        one.sheet = Some(names[i].clone());
                        let ghost pushed = one@;
                        assert(pushed == made[i as int]);
                        out.push(one);
                        assert(sets_view(out@) == before.push(pushed));
                        assert(made.take(i as int + 1) == made.take(i as int).push(
                            made[i as int],
                        ));
                        i = i + 1;
                    }
                    assert(made.take(i as int) == made);
                    return;
                }
            }
        }
    }
    out.push(set.clone());
    assert(sets_view(out@) == start + apart(set@, options@.sheet, sheets@));
}

/// Replace each spreadsheet data set with one per sheet.
///
/// `sheets` says what the sheets of a workbook are, by its address. The first file of a
/// set decides, since the files of a set are required to agree anyway.
pub fn expand_sheets(
    sets: Vec<DataSet>,
    options: &FileOptions,
    sheets: &table::Table<Vec<String>>,
) -> (r: Vec<DataSet>)
    requires
        sheets.wf(),
    ensures
        sets_view(r@) == all_apart(sets_view(sets@), options@.sheet, sheets@),
{
    let ghost all = sets_view(sets@);
    let mut out: Vec<DataSet> = Vec::new();
    let mut i: usize = 0;
    assert(sets_view(out@) == all_apart(all.take(0), options@.sheet, sheets@));
    while i < sets.len()
        invariant
            i <= sets.len(),
            sheets.wf(),
            all == sets_view(sets@),
            sets_view(out@) == all_apart(all.take(i as int), options@.sheet, sheets@),
        decreases sets.len() - i,
    {
        expand_one(&sets[i], options, sheets, &mut out);
        assert(all.take(i as int + 1).drop_last() == all.take(i as int));
        i = i + 1;
    }
    assert(all.take(i as int) == all);
    out
}

impl Ranked for DataSet {
    open spec fn precedes(&self, other: &Self) -> bool {
        table::before(self.name@, other.name@)
    }

    fn ahead_of(&self, other: &Self) -> (r: bool) {
        table::comes_before(&self.name, &other.name)
    }

    proof fn lemma_asymmetric(a: &Self, b: &Self) {
        if table::before(a.name@, b.name@) && table::before(b.name@, a.name@) {
            table::lemma_before_transitive(a.name@, b.name@, a.name@);
            table::lemma_before_irreflexive(a.name@);
        }
    }

    proof fn lemma_steps(a: &Self, b: &Self, c: &Self) {
        table::lemma_not_before(a.name@, b.name@, c.name@);
    }
}

pub open spec fn by_name() -> spec_fn(DataSetView, DataSetView) -> bool {
    |a: DataSetView, b: DataSetView| table::before(a.name, b.name)
}

fn sort_sets(sets: Vec<DataSet>) -> (r: Vec<DataSet>)
    ensures
        sets_view(r@) == order::sorted_by(sets_view(sets@), by_name()),
{
    let r = order::sort(sets);
    proof {
        let f = |s: DataSet| s@;
        order::lemma_sorted_views(sets@, f, by_name());
        assert(sets@.map_values(f) == sets_view(sets@));
        assert(r@.map_values(f) == sets_view(r@));
    }
    r
}

/// Directories as tables, by name.
pub open spec fn named(
    directories: Seq<DirectoryView>,
    format: FileFormat,
    wanted: Option<Seq<char>>,
    sheets: Map<Seq<char>, Vec<String>>,
) -> Seq<DataSetView> {
    order::sorted_by(all_apart(grouped(directories, format), wanted, sheets), by_name())
}

/// Turn grouped directories into named tables.
///
/// The grouping is the same wherever the files are: a storage account is listed rather
/// than walked, and then wants exactly these rules.
pub fn name_sets(
    directories: Vec<Directory>,
    format: FileFormat,
    options: &FileOptions,
    sheets: &table::Table<Vec<String>>,
) -> (r: Vec<DataSet>)
    requires
        sheets.wf(),
    ensures
        sets_view(r@) == named(
            directories_view(directories@),
            format,
            options@.sheet,
            sheets@,
        ),
{
    sort_sets(expand_sheets(group(directories, format), options, sheets))
}

// ------------------------------------------------------------------- delta tables

/// Whether a directory is a Delta table.
pub open spec fn is_table(children: Seq<ChildView>) -> bool {
    exists|i: int|
        0 <= i < children.len() && (#[trigger] children[i] matches ChildView::Folder {
            name,
            ..
        } && name == DELTA_LOG@)
}

fn holds_log(children: &Vec<Child>) -> (r: bool)
    ensures
        r == is_table(tree::seen(children@)),
{
    let ghost all = tree::seen(children@);
    let mut i: usize = 0;
    while i < children.len()
        invariant
            i <= children.len(),
            all == tree::seen(children@),
            forall|j: int|
                0 <= j < i ==> !(#[trigger] all[j] matches ChildView::Folder { name, .. } && name
                    == DELTA_LOG@),
        decreases children.len() - i,
    {
        assert(all[i as int] == children@[i as int]@);
        if let Child::Folder { name, .. } = &children[i] {
            proof {
                tree::lemma_folder(children@[i as int]);
            }
            if text::same(name, DELTA_LOG) {
                return true;
            }
        }
        i = i + 1;
    }
    false
}

/// The Delta tables below a directory, each by its path below the root and its address.
/// A table is a leaf: what is inside belongs to its log.
pub open spec fn deltas(
    children: Seq<ChildView>,
    here: Seq<char>,
    windows: bool,
    relative: Seq<char>,
    depth: nat,
    excluded: Seq<Seq<char>>,
    found: Seq<(Seq<char>, Seq<char>)>,
) -> Seq<(Seq<char>, Seq<char>)>
    decreases MAX_DEPTH + 1 - depth, 0nat,
{
    if depth > MAX_DEPTH || found.len() >= MAX_FILES {
        found
    } else if is_table(children) {
        if left_out(excluded, tree::slashed(relative)) {
            found
        } else {
            found.push((tree::slashed(relative), tree::slashed(here)))
        }
    } else {
        deltas_all(
            order::sorted_by(walked_folders(children), tree::by_folder()),
            here,
            windows,
            relative,
            depth + 1,
            excluded,
            found,
        )
    }
}

pub open spec fn deltas_all(
    folders: Seq<(Seq<char>, Seq<ChildView>)>,
    here: Seq<char>,
    windows: bool,
    relative: Seq<char>,
    depth: nat,
    excluded: Seq<Seq<char>>,
    found: Seq<(Seq<char>, Seq<char>)>,
) -> Seq<(Seq<char>, Seq<char>)>
    decreases MAX_DEPTH + 1 - depth, folders.len() + 1,
{
    if folders.len() == 0 {
        found
    } else {
        let before = deltas_all(folders.drop_last(), here, windows, relative, depth, excluded, found);
        let (name, inside) = folders.last();
        deltas(
            inside,
            paths::join(here, name, windows),
            windows,
            tree::under(relative, name),
            depth,
            excluded,
            before,
        )
    }
}

pub open spec fn pairs_view(pairs: Seq<(String, String)>) -> Seq<(Seq<char>, Seq<char>)> {
    Seq::new(pairs.len(), |i: int| (pairs[i].0@, pairs[i].1@))
}

fn find_delta(
    children: &Vec<Child>,
    here: &str,
    windows: bool,
    relative: &str,
    depth: usize,
    excluded: &Vec<String>,
    out: &mut Vec<(String, String)>,
)
    requires
        depth <= MAX_DEPTH + 1,
    ensures
        pairs_view(final(out)@) == deltas(
            tree::seen(children@),
            here@,
            windows,
            relative@,
            depth as nat,
            text::views(excluded@),
            pairs_view(old(out)@),
        ),
    decreases MAX_DEPTH + 1 - depth,
{
    if depth > MAX_DEPTH || out.len() >= MAX_FILES {
        return;
    }
    let ghost left = text::views(excluded@);
    let ghost start = pairs_view(out@);
    if holds_log(children) {
        let path = relative_of(relative);
        if !is_left_out(excluded, &path) {
            let address = address_of(here);
            let ghost pair = (path@, address@);
            out.push((path, address));
            assert(pairs_view(out@) == start.push(pair));
        }
        return;
    }
    let folders = folders_of(children);
    let ghost shapes = Seq::new(folders@.len(), |i: int| folders@[i].shape());
    let mut i: usize = 0;
    assert(shapes.take(0) == Seq::<(Seq<char>, Seq<ChildView>)>::empty());
    while i < folders.len()
        invariant
            i <= folders.len(),
            depth <= MAX_DEPTH,
            left == text::views(excluded@),
            shapes == Seq::new(folders@.len(), |j: int| folders@[j].shape()),
            pairs_view(out@) == deltas_all(
                shapes.take(i as int),
                here@,
                windows,
                relative@,
                (depth + 1) as nat,
                left,
                start,
            ),
        decreases folders.len() - i,
    {
        let name = folders[i].name;
        let inside = folders[i].children;
        assert(shapes.take(i as int + 1).drop_last() == shapes.take(i as int));
        assert(shapes.take(i as int + 1).last() == (name@, tree::seen(inside@)));
        find_delta(
            inside,
            &paths::joined(here, name, windows),
            windows,
            &tree::below(relative, name),
            depth + 1,
            excluded,
            out,
        );
        i = i + 1;
    }
    assert(shapes.take(i as int) == shapes);
}

/// A table for each of those directories. The root, where it is one, goes by its own
/// name.
pub open spec fn delta_sets(found: Seq<(Seq<char>, Seq<char>)>) -> Seq<DataSetView>
    decreases found.len(),
{
    if found.len() == 0 {
        Seq::empty()
    } else {
        let before = delta_sets(found.drop_last());
        let (relative, address) = found.last();
        before.push(
            DataSetView {
                name: if relative.len() == 0 {
                    file_table(address, table_names(before))
                } else {
                    folder_table(relative, table_names(before))
                },
                files: seq![address],
                format: FileFormat::Delta,
                sheet: None,
                tagged: false,
            },
        )
    }
}

fn name_deltas(found: Vec<(String, String)>) -> (r: Vec<DataSet>)
    ensures
        sets_view(r@) == order::sorted_by(delta_sets(pairs_view(found@)), by_name()),
{
    let ghost all = pairs_view(found@);
    let mut sets: Vec<DataSet> = Vec::new();
    let mut taken: Vec<String> = Vec::new();
    let mut i: usize = 0;
    assert(sets_view(sets@) == delta_sets(all.take(0)));
    assert(text::views(taken@) == table_names(sets_view(sets@)));
    while i < found.len()
        invariant
            i <= found.len(),
            all == pairs_view(found@),
            text::views(taken@) == table_names(sets_view(sets@)),
            sets_view(sets@) == delta_sets(all.take(i as int)),
        decreases found.len() - i,
    {
        let ghost before = sets_view(sets@);
        let relative = &found[i].0;
        let address = &found[i].1;
        assert(all.take(i as int + 1).last() == (relative@, address@));
        let name = if relative.as_str().is_empty() {
            stem_for(address, &mut taken)
        } else {
            name_for(relative, &mut taken)
        };
        let mut files: Vec<String> = Vec::new();
        files.push(address.clone());
        assert(text::views(files@) == seq![address@]);
        let set = DataSet { name, files, format: FileFormat::Delta, sheet: None, tagged: false };
        let ghost pushed = set@;
        sets.push(set);
        assert(sets_view(sets@) == before.push(pushed));
        assert(table_names(before.push(pushed)) == table_names(before).push(pushed.name));
        assert(all.take(i as int + 1).drop_last() == all.take(i as int));
        i = i + 1;
    }
    assert(all.take(i as int) == all);
    sort_sets(sets)
}

/// Every Delta table of a folder, by name.
pub open spec fn delta_holdings(
    children: Seq<ChildView>,
    root: Seq<char>,
    windows: bool,
    excluded: Seq<Seq<char>>,
) -> Seq<DataSetView> {
    order::sorted_by(
        delta_sets(deltas(children, root, windows, Seq::empty(), 0, excluded, Seq::empty())),
        by_name(),
    )
}

/// Every Delta table under a root: each directory holding a log.
pub fn delta_tables(
    children: &Vec<Child>,
    root: &str,
    windows: bool,
    options: &FileOptions,
) -> (r: Vec<DataSet>)
    ensures
        sets_view(r@) == delta_holdings(tree::seen(children@), root@, windows, options@.exclude),
{
    let mut found: Vec<(String, String)> = Vec::new();
    assert(pairs_view(found@) == Seq::<(Seq<char>, Seq<char>)>::empty());
    let top = "";
    proof {
        reveal_strlit("");
        assert(top@ == Seq::<char>::empty());
    }
    find_delta(children, root, windows, top, 0, &options.exclude, &mut found);
    name_deltas(found)
}

/// What comes before the log in a path, without a slash at the end. The log is a directory
/// of that name, so a name that only ends with it is none.
pub open spec fn before_log(path: Seq<char>) -> Option<Seq<char>> {
    if text::starts_with(path, "_delta_log/"@) {
        Some(Seq::empty())
    } else {
        match text::cut(path, "/_delta_log/"@) {
            Some((head, _)) => Some(text::strip_end(head, '/')),
            None => None,
        }
    }
}

/// The directory that a path in a log is the table of.
pub fn table_of(path: &str) -> (r: Option<String>)
    ensures
        text::opt(r) == before_log(path@),
{
    if text::begins(path, "_delta_log/") {
        return Some(String::new());
    }
    match text::cut_at(path, "/_delta_log/") {
        Some((head, _)) => Some(text::stripped_end(&head, '/')),
        None => None,
    }
}

/// The Delta tables a listing implies, in the order it names them: the directories
/// holding a log, each once.
pub open spec fn implied(
    listing: Seq<(Seq<char>, Seq<char>)>,
    excluded: Seq<Seq<char>>,
) -> Seq<(Seq<char>, Seq<char>)>
    decreases listing.len(),
{
    if listing.len() == 0 {
        Seq::empty()
    } else {
        let before = implied(listing.drop_last(), excluded);
        match (before_log(listing.last().0), before_log(listing.last().1)) {
            (Some(table), Some(directory)) => if left_out(excluded, table) || firsts(
                before,
            ).contains(table) {
                before
            } else {
                before.push((table, directory))
            },
            _ => before,
        }
    }
}

pub open spec fn firsts(pairs: Seq<(Seq<char>, Seq<char>)>) -> Seq<Seq<char>> {
    Seq::new(pairs.len(), |i: int| pairs[i].0)
}

/// The Delta tables a remote listing implies. A log holds many files, and each one names
/// the same table.
pub fn delta_from_listing(listing: &Vec<(String, String)>, options: &FileOptions) -> (r: Vec<
    DataSet,
>)
    ensures
        sets_view(r@) == order::sorted_by(
            delta_sets(implied(pairs_view(listing@), options@.exclude)),
            by_name(),
        ),
{
    let ghost all = pairs_view(listing@);
    let mut found: Vec<(String, String)> = Vec::new();
    let mut seen: Vec<String> = Vec::new();
    let mut i: usize = 0;
    assert(pairs_view(found@) == implied(all.take(0), options@.exclude));
    assert(text::views(seen@) == firsts(pairs_view(found@)));
    while i < listing.len()
        invariant
            i <= listing.len(),
            all == pairs_view(listing@),
            text::views(seen@) == firsts(pairs_view(found@)),
            pairs_view(found@) == implied(all.take(i as int), options@.exclude),
        decreases listing.len() - i,
    {
        let ghost before = pairs_view(found@);
        let ghost names = text::views(seen@);
        assert(all.take(i as int + 1).drop_last() == all.take(i as int));
        assert(all.take(i as int + 1).last() == (listing@[i as int].0@, listing@[i as int].1@));
        if let Some(table) = table_of(&listing[i].0) {
            if let Some(directory) = table_of(&listing[i].1) {
                if !is_left_out(&options.exclude, &table) && !session::is_listed(&seen, &table) {
                    seen.push(table.clone());
                    assert(text::views(seen@) == names.push(table@));
                    let ghost pair = (table@, directory@);
                    found.push((table, directory));
                    assert(pairs_view(found@) == before.push(pair));
                    assert(firsts(before.push(pair)) == firsts(before).push(pair.0));
                }
            }
        }
        i = i + 1;
    }
    assert(all.take(i as int) == all);
    name_deltas(found)
}

// ---------------------------------------------------------------------- the tables

/// What a folder holds, as tables.
pub open spec fn tables(
    children: Seq<ChildView>,
    root: Seq<char>,
    windows: bool,
    format: FileFormat,
    options: FileOptionsView,
    sheets: Map<Seq<char>, Vec<String>>,
) -> Seq<DataSetView> {
    if format is Delta {
        delta_holdings(children, root, windows, options.exclude)
    } else {
        named(
            holdings(children, root, windows, Some(format), options.exclude),
            format,
            options.sheet,
            sheets,
        )
    }
}

/// What a folder holds, as tables.
///
/// A file at the root is its own table, named after itself: the root has no name left to
/// give. A subdirectory is one table over every file in it, which is where a folder of
/// monthly exports belongs.
pub fn walk(
    children: &Vec<Child>,
    root: &str,
    windows: bool,
    format: FileFormat,
    options: &FileOptions,
    sheets: &table::Table<Vec<String>>,
) -> (r: Vec<DataSet>)
    requires
        sheets.wf(),
    ensures
        sets_view(r@) == tables(tree::seen(children@), root@, windows, format, options@, sheets@),
{
    if format.is_delta() {
        return delta_tables(children, root, windows, options);
    }
    let found = directories(children, root, windows, Some(format), &options.exclude);
    name_sets(found, format, options, sheets)
}

/// The addresses of the workbooks among those tables whose sheets have to be known
/// before the tables are: the first file of each spreadsheet, unless one sheet was asked
/// for.
pub fn workbooks(sets: &Vec<DataSet>, options: &FileOptions) -> (r: Vec<String>)
    ensures
        text::views(r@) == first_workbooks(sets_view(sets@), options@.sheet),
{
    let ghost all = sets_view(sets@);
    let mut out: Vec<String> = Vec::new();
    let mut i: usize = 0;
    assert(text::views(out@) == first_workbooks(all.take(0), options@.sheet));
    while i < sets.len()
        invariant
            i <= sets.len(),
            all == sets_view(sets@),
            text::views(out@) == first_workbooks(all.take(i as int), options@.sheet),
        decreases sets.len() - i,
    {
        let ghost before = text::views(out@);
        assert(all.take(i as int + 1).drop_last() == all.take(i as int));
        assert(all.take(i as int + 1).last() == sets@[i as int]@);
        if sets[i].format.is_excel() && options.excel.sheet.is_none() && sets[i].files.len() > 0 {
            out.push(sets[i].files[0].clone());
            assert(text::views(out@) == before.push(sets@[i as int]@.files[0]));
        }
        i = i + 1;
    }
    assert(all.take(i as int) == all);
    out
}

pub open spec fn first_workbooks(sets: Seq<DataSetView>, wanted: Option<Seq<char>>) -> Seq<
    Seq<char>,
>
    decreases sets.len(),
{
    if sets.len() == 0 {
        Seq::empty()
    } else {
        let before = first_workbooks(sets.drop_last(), wanted);
        if sets.last().format is Excel && wanted is None && sets.last().files.len() > 0 {
            before.push(sets.last().files[0])
        } else {
            before
        }
    }
}

// --------------------------------------------------------------------------- laws

proof fn lemma_chosen(first: Seq<char>, second: Seq<char>, taken: Seq<Seq<char>>)
    ensures
        !taken.contains(chosen(first, second, taken)),
{
    law_an_unclaimed_name_is_unclaimed(second, taken);
}

proof fn lemma_push_name(sets: Seq<DataSetView>, set: DataSetView)
    requires
        table_names(sets).no_duplicates(),
        !table_names(sets).contains(set.name),
    ensures
        table_names(sets.push(set)).no_duplicates(),
{
    let names = table_names(sets);
    let more = table_names(sets.push(set));
    assert(more == names.push(set.name));
    assert forall|i: int, j: int| 0 <= i < more.len() && 0 <= j < more.len() && i != j implies more[i]
        != more[j] by {
        if i == names.len() {
            assert(more[j] == names[j]);
        } else if j == names.len() {
            assert(more[i] == names[i]);
        } else {
            assert(more[i] == names[i] && more[j] == names[j]);
        }
    }
}

proof fn lemma_files_named(sets: Seq<DataSetView>, files: Seq<Seq<char>>, format: FileFormat)
    requires
        table_names(sets).no_duplicates(),
    ensures
        table_names(with_files(sets, files, format)).no_duplicates(),
    decreases files.len(),
{
    if files.len() > 0 {
        lemma_files_named(sets, files.drop_last(), format);
        let before = with_files(sets, files.drop_last(), format);
        let name = filename(files.last());
        lemma_chosen(
            if stem_of(name).len() == 0 {
                "data"@
            } else {
                stem_of(name)
            },
            name,
            table_names(before),
        );
        lemma_push_name(before, with_files(sets, files, format).last());
    }
}

proof fn lemma_folders_named(
    sets: Seq<DataSetView>,
    directories: Seq<DirectoryView>,
    format: FileFormat,
)
    requires
        table_names(sets).no_duplicates(),
    ensures
        table_names(with_folders(sets, directories, format)).no_duplicates(),
    decreases directories.len(),
{
    if directories.len() > 0 {
        lemma_folders_named(sets, directories.drop_last(), format);
        let before = with_folders(sets, directories.drop_last(), format);
        let relative = directories.last().relative;
        lemma_chosen(
            if filename(relative).len() == 0 {
                relative
            } else {
                filename(relative)
            },
            text::replace_char(relative, '/', "_"@),
            table_names(before),
        );
        lemma_push_name(before, with_folders(sets, directories, format).last());
    }
}

/// However files and directories are called, no two tables made of them share a name,
/// before spreadsheets are taken apart.
pub proof fn law_every_table_has_a_name_of_its_own(
    directories: Seq<DirectoryView>,
    format: FileFormat,
)
    ensures
        table_names(grouped(directories, format)).no_duplicates(),
{
    let none = Seq::<DataSetView>::empty();
    assert(table_names(none).no_duplicates());
    match root_at(directories, 0) {
        Some(at) => {
            lemma_files_named(none, directories[at as int].files, format);
            lemma_folders_named(
                with_files(none, directories[at as int].files, format),
                directories.remove(at as int),
                format,
            );
        },
        None => {
            lemma_folders_named(none, directories, format);
        },
    }
}

/// All the files of those tables.
pub open spec fn files_in(sets: Seq<DataSetView>) -> vstd::multiset::Multiset<Seq<char>>
    decreases sets.len(),
{
    if sets.len() == 0 {
        vstd::multiset::Multiset::empty()
    } else {
        files_in(sets.drop_last()).add(sets.last().files.to_multiset())
    }
}

/// All the files of those directories.
pub open spec fn files_below(directories: Seq<DirectoryView>) -> vstd::multiset::Multiset<Seq<char>>
    decreases directories.len(),
{
    if directories.len() == 0 {
        vstd::multiset::Multiset::empty()
    } else {
        files_below(directories.drop_last()).add(directories.last().files.to_multiset())
    }
}

proof fn lemma_files_kept(sets: Seq<DataSetView>, files: Seq<Seq<char>>, format: FileFormat)
    ensures
        files_in(with_files(sets, files, format)) == files_in(sets).add(files.to_multiset()),
    decreases files.len(),
{
    broadcast use vstd::seq_lib::group_to_multiset_ensures;

    if files.len() == 0 {
        assert(files_in(sets) =~= files_in(sets).add(files.to_multiset()));
    } else {
        let last = files.last();
        lemma_files_kept(sets, files.drop_last(), format);
        let all = with_files(sets, files, format);
        assert(all.drop_last() == with_files(sets, files.drop_last(), format));
        assert(files == files.drop_last().push(last));
        let one = seq![last];
        assert(one == Seq::<Seq<char>>::empty().push(last));
        assert(all.last().files == one);
        assert(one.to_multiset() =~= vstd::multiset::Multiset::singleton(last));
        assert(files_in(all) =~= files_in(sets).add(files.to_multiset()));
    }
}

proof fn lemma_folders_kept(
    sets: Seq<DataSetView>,
    directories: Seq<DirectoryView>,
    format: FileFormat,
)
    ensures
        files_in(with_folders(sets, directories, format)) == files_in(sets).add(
            files_below(directories),
        ),
    decreases directories.len(),
{
    if directories.len() == 0 {
        assert(files_in(sets) =~= files_in(sets).add(files_below(directories)));
    } else {
        lemma_folders_kept(sets, directories.drop_last(), format);
        let all = with_folders(sets, directories, format);
        assert(all.drop_last() == with_folders(sets, directories.drop_last(), format));
        assert(files_in(all) =~= files_in(sets).add(files_below(directories)));
    }
}

proof fn lemma_files_without(directories: Seq<DirectoryView>, at: int)
    requires
        0 <= at < directories.len(),
    ensures
        files_below(directories) == files_below(directories.remove(at)).add(
            directories[at].files.to_multiset(),
        ),
    decreases directories.len(),
{
    let rest = directories.remove(at);
    if at == directories.len() - 1 {
        assert(rest == directories.drop_last());
    } else {
        lemma_files_without(directories.drop_last(), at);
        assert(rest.drop_last() == directories.drop_last().remove(at));
        assert(rest.last() == directories.last());
        assert(files_below(directories) =~= files_below(rest).add(
            directories[at].files.to_multiset(),
        ));
    }
}

proof fn lemma_root_at(directories: Seq<DirectoryView>, from: nat)
    ensures
        root_at(directories, from) matches Some(at) ==> from <= at < directories.len()
            && directories[at as int].relative.len() == 0,
    decreases directories.len() - from,
{
    if from < directories.len() && directories[from as int].relative.len() > 0 {
        lemma_root_at(directories, from + 1);
    }
}

/// No file vanishes on the way to a table, and none is read twice.
pub proof fn law_no_file_is_lost(directories: Seq<DirectoryView>, format: FileFormat)
    ensures
        files_in(grouped(directories, format)) == files_below(directories),
{
    let none = Seq::<DataSetView>::empty();
    match root_at(directories, 0) {
        Some(at) => {
            lemma_root_at(directories, 0);
            let files = directories[at as int].files;
            lemma_files_kept(none, files, format);
            lemma_folders_kept(
                with_files(none, files, format),
                directories.remove(at as int),
                format,
            );
            lemma_files_without(directories, at as int);
            assert(files_in(grouped(directories, format)) =~= files_below(directories));
        },
        None => {
            lemma_folders_kept(none, directories, format);
            assert(files_in(grouped(directories, format)) =~= files_below(directories));
        },
    }
}

/// How many files those directories have.
pub open spec fn how_many(directories: Seq<DirectoryView>) -> nat
    decreases directories.len(),
{
    if directories.len() == 0 {
        0
    } else {
        how_many(directories.drop_last()) + directories.last().files.len()
    }
}

proof fn lemma_collected(
    children: Seq<ChildView>,
    here: Seq<char>,
    windows: bool,
    relative: Seq<char>,
    depth: nat,
    format: Option<FileFormat>,
    excluded: Seq<Seq<char>>,
    found: Found,
)
    requires
        found.count <= MAX_FILES,
        how_many(found.directories) == found.count,
    ensures
        ({
            let all = collected(children, here, windows, relative, depth, format, excluded, found);
            &&& all.count <= MAX_FILES
            &&& how_many(all.directories) == all.count
        }),
    decreases MAX_DEPTH + 1 - depth, 0nat,
{
    if depth > MAX_DEPTH || found.count >= MAX_FILES {
    } else {
        let limit = (MAX_FILES - found.count) as nat;
        let names = read_here(children, relative, format, excluded, limit);
        lemma_read_here(children, relative, format, excluded, limit);
        let files = order::alphabetical(addresses(here, windows, names));
        order::lemma_sorted_by_multiset(addresses(here, windows, names), order::by_text());
        let next = Found {
            directories: if names.len() == 0 {
                found.directories
            } else {
                found.directories.push(
                    DirectoryView { relative: tree::slashed(relative), files },
                )
            },
            count: found.count + names.len(),
        };
        assert(how_many(next.directories) == next.count) by {
            if names.len() > 0 {
                assert(next.directories.drop_last() == found.directories);
            }
        }
        lemma_collected_all(
            order::sorted_by(walked_folders(children), tree::by_folder()),
            here,
            windows,
            relative,
            depth + 1,
            format,
            excluded,
            next,
        );
    }
}

proof fn lemma_collected_all(
    folders: Seq<(Seq<char>, Seq<ChildView>)>,
    here: Seq<char>,
    windows: bool,
    relative: Seq<char>,
    depth: nat,
    format: Option<FileFormat>,
    excluded: Seq<Seq<char>>,
    found: Found,
)
    requires
        found.count <= MAX_FILES,
        how_many(found.directories) == found.count,
    ensures
        ({
            let all = collected_all(folders, here, windows, relative, depth, format, excluded, found);
            &&& all.count <= MAX_FILES
            &&& how_many(all.directories) == all.count
        }),
    decreases MAX_DEPTH + 1 - depth, folders.len() + 1,
{
    if folders.len() > 0 {
        lemma_collected_all(
            folders.drop_last(),
            here,
            windows,
            relative,
            depth,
            format,
            excluded,
            found,
        );
        let before = collected_all(
            folders.drop_last(),
            here,
            windows,
            relative,
            depth,
            format,
            excluded,
            found,
        );
        let (name, inside) = folders.last();
        lemma_collected(
            inside,
            paths::join(here, name, windows),
            windows,
            tree::under(relative, name),
            depth,
            format,
            excluded,
            before,
        );
    }
}

/// A folder source never reads more files than it may, however large the folder.
pub proof fn law_a_folder_source_is_bounded(
    children: Seq<ChildView>,
    root: Seq<char>,
    windows: bool,
    format: Option<FileFormat>,
    excluded: Seq<Seq<char>>,
)
    ensures
        how_many(holdings(children, root, windows, format, excluded)) <= MAX_FILES,
{
    lemma_collected(children, root, windows, Seq::empty(), 0, format, excluded, nothing());
}

// ------------------------------------------------------------- laws of the statement

/// Arguments behind a first one: a comma in front of each.
pub open spec fn further(words: Seq<Seq<char>>) -> Seq<char>
    decreases words.len(),
{
    if words.len() == 0 {
        Seq::empty()
    } else {
        further(words.drop_last()) + ", "@ + words.last()
    }
}

proof fn lemma_further(first: Seq<char>, words: Seq<Seq<char>>)
    ensures
        text::join(seq![first] + words, ", "@) == first + further(words),
    decreases words.len(),
{
    let all = seq![first] + words;
    if words.len() == 0 {
        assert(all.len() == 1 && all[0] == first);
        assert(first + further(words) == first);
    } else {
        lemma_further(first, words.drop_last());
        assert(all.drop_last() == seq![first] + words.drop_last());
        assert(all.last() == words.last());
        assert(first + further(words.drop_last()) + ", "@ + words.last() == first + (further(
            words.drop_last(),
        ) + ", "@ + words.last()));
    }
}

/// Options that say nothing.
pub open spec fn no_option(o: CsvOptionsView) -> bool {
    &&& o.delimiter is None
    &&& o.quote is None
    &&& o.escape is None
    &&& o.header is None
    &&& o.decimal is None
    &&& o.encoding is None
    &&& o.null_string is None
    &&& o.skip is None
    &&& o.date_format is None
    &&& o.timestamp_format is None
    &&& o.ignore_errors is None
    &&& o.sample_size is None
    &&& o.all_varchar is None
}

proof fn lemma_one_file(set: DataSetView)
    requires
        set.files.len() == 1,
    ensures
        text::join(quoted_files(set.files), ""@) == quote::literal(set.files[0]),
{
    assert(quoted_files(set.files).len() == 1);
    assert(quoted_files(set.files)[0] == quote::literal(set.files[0]));
}

proof fn lemma_scan(head: Seq<char>, function: Seq<char>, file: Seq<char>, more: Seq<char>)
    ensures
        head + (function + "("@ + (file + more) + ")"@) == head + function + "("@ + file + more
            + ")"@,
{
    assert(head + (function + "("@ + (file + more) + ")"@) =~= head + function + "("@ + file + more
        + ")"@);
}

/// A table that is one file is every row and column its reader finds, and the statement
/// ends there: the call of the function for its format on that one path, with the options
/// behind it.
pub proof fn law_one_file_is_read_as_it_is(set: DataSetView, options: FileOptionsView)
    requires
        set.files.len() == 1,
        !set.tagged,
    ensures
        ({
            let path = quote::literal(set.files[0]);
            match set.format {
                FileFormat::Csv => {
                    &&& select(set, options) == Some(
                        "SELECT * FROM read_csv("@ + path + further(csv_words(options.csv)) + ")"@,
                    )
                    &&& no_option(options.csv) ==> select(set, options) == Some(
                        "SELECT * FROM read_csv("@ + path + ")"@,
                    )
                },
                FileFormat::Parquet => select(set, options) == Some(
                    "SELECT * FROM read_parquet("@ + path + ")"@,
                ),
                FileFormat::Json => select(set, options) == Some(
                    "SELECT * FROM read_json("@ + path + ")"@,
                ),
                FileFormat::JsonLines => select(set, options) == Some(
                    "SELECT * FROM read_json("@ + path + ", format = 'newline_delimited')"@,
                ),
                FileFormat::Delta => select(set, options) == Some(
                    "SELECT * FROM delta_scan("@ + path + ")"@,
                ),
                FileFormat::Excel => select(set, options) is None,
            }
        }),
{
    let path = quote::literal(set.files[0]);
    lemma_one_file(set);
    reveal_strlit("SELECT * FROM ");
    reveal_strlit("(");
    reveal_strlit(")");
    let none = Seq::<Seq<char>>::empty();
    match set.format {
        FileFormat::Csv => {
            let words = csv_words(options.csv);
            assert(arguments(set, options) == seq![path] + words);
            lemma_further(path, words);
            lemma_scan("SELECT * FROM "@, "read_csv"@, path, further(words));
            reveal_strlit("read_csv");
            reveal_strlit("SELECT * FROM read_csv(");
            assert("SELECT * FROM read_csv("@ == "SELECT * FROM "@ + "read_csv"@ + "("@);
            if no_option(options.csv) {
                lemma_no_words(options.csv);
                assert(path + further(words) == path);
                assert("SELECT * FROM read_csv("@ + path + further(words)
                    == "SELECT * FROM read_csv("@ + path);
            }
        },
        FileFormat::Parquet => {
            assert(arguments(set, options) == seq![path] + none);
            lemma_further(path, none);
            lemma_scan("SELECT * FROM "@, "read_parquet"@, path, further(none));
            reveal_strlit("read_parquet");
            reveal_strlit("SELECT * FROM read_parquet(");
            assert("SELECT * FROM read_parquet("@ == "SELECT * FROM "@ + "read_parquet"@ + "("@);
            assert("SELECT * FROM read_parquet("@ + path + further(none)
                == "SELECT * FROM read_parquet("@ + path);
        },
        FileFormat::Json => {
            assert(arguments(set, options) == seq![path] + none);
            lemma_further(path, none);
            lemma_scan("SELECT * FROM "@, "read_json"@, path, further(none));
            reveal_strlit("read_json");
            reveal_strlit("SELECT * FROM read_json(");
            assert("SELECT * FROM read_json("@ == "SELECT * FROM "@ + "read_json"@ + "("@);
            assert("SELECT * FROM read_json("@ + path + further(none) == "SELECT * FROM read_json("@
                + path);
        },
        FileFormat::JsonLines => {
            let words = seq!["format = 'newline_delimited'"@];
            assert(arguments(set, options) == seq![path] + words);
            lemma_further(path, words);
            lemma_scan("SELECT * FROM "@, "read_json"@, path, further(words));
            reveal_strlit("read_json");
            reveal_strlit("SELECT * FROM read_json(");
            reveal_strlit(", ");
            reveal_strlit("format = 'newline_delimited'");
            reveal_strlit(", format = 'newline_delimited')");
            assert("SELECT * FROM read_json("@ == "SELECT * FROM "@ + "read_json"@ + "("@);
            assert(words.drop_last() == none);
            assert(further(none) == Seq::<char>::empty());
            assert(further(words) == ", "@ + "format = 'newline_delimited'"@);
            assert(", format = 'newline_delimited')"@ == further(words) + ")"@);
            assert("SELECT * FROM read_json("@ + path + further(words) + ")"@
                == "SELECT * FROM read_json("@ + path + (further(words) + ")"@));
        },
        FileFormat::Delta => {
            reveal_strlit("delta_scan");
            reveal_strlit("SELECT * FROM delta_scan(");
            assert("SELECT * FROM delta_scan("@ == "SELECT * FROM "@ + "delta_scan"@ + "("@);
        },
        FileFormat::Excel => {},
    }
}

proof fn lemma_no_words(o: CsvOptionsView)
    requires
        no_option(o),
    ensures
        csv_words(o) == Seq::<Seq<char>>::empty(),
        further(csv_words(o)) == Seq::<char>::empty(),
{
    assert(csv_words(o).len() == 0);
}

/// One where the option is set, and none otherwise. A text that is empty says nothing.
pub open spec fn one_if(set: bool) -> nat {
    if set {
        1
    } else {
        0
    }
}

pub open spec fn says_something(value: Option<Seq<char>>) -> bool {
    value is Some && value->Some_0.len() > 0
}

/// The option's argument is among them, where the option is set: its name, and the text in
/// quotes.
pub open spec fn passes_text(
    words: Seq<Seq<char>>,
    name: Seq<char>,
    value: Option<Seq<char>>,
) -> bool {
    says_something(value) ==> words.contains(name + " = "@ + quote::literal(value->Some_0))
}

pub open spec fn passes_flag(words: Seq<Seq<char>>, name: Seq<char>, value: Option<bool>) -> bool {
    &&& value == Some(true) ==> words.contains(name + " = "@ + "true"@)
    &&& value == Some(false) ==> words.contains(name + " = "@ + "false"@)
}

spec fn texts_first(o: CsvOptionsView) -> Seq<Seq<char>> {
    worded("delim"@, o.delimiter) + worded("quote"@, o.quote) + worded("escape"@, o.escape)
        + worded("decimal_separator"@, o.decimal)
}

spec fn texts_last(o: CsvOptionsView) -> Seq<Seq<char>> {
    worded("encoding"@, o.encoding) + worded("nullstr"@, o.null_string) + worded(
        "dateformat"@,
        o.date_format,
    ) + worded("timestampformat"@, o.timestamp_format)
}

spec fn rest_of(o: CsvOptionsView) -> Seq<Seq<char>> {
    flagged("header"@, o.header) + counted(
        "skip"@,
        match o.skip {
            Some(n) => Some(n as int),
            None => None,
        },
    ) + flagged("ignore_errors"@, o.ignore_errors) + counted(
        "sample_size"@,
        match o.sample_size {
            Some(n) => Some(n as int),
            None => None,
        },
    ) + flagged("all_varchar"@, o.all_varchar)
}

proof fn lemma_groups(o: CsvOptionsView)
    ensures
        csv_words(o) == texts_first(o) + texts_last(o) + rest_of(o),
{
    let skip = counted(
        "skip"@,
        match o.skip {
            Some(n) => Some(n as int),
            None => None,
        },
    );
    let sample = counted(
        "sample_size"@,
        match o.sample_size {
            Some(n) => Some(n as int),
            None => None,
        },
    );
    lemma_regroup(
        texts_first(o),
        worded("encoding"@, o.encoding),
        worded("nullstr"@, o.null_string),
        worded("dateformat"@, o.date_format),
        worded("timestampformat"@, o.timestamp_format),
    );
    let texts = texts_first(o) + texts_last(o);
    let header = flagged("header"@, o.header);
    let errors = flagged("ignore_errors"@, o.ignore_errors);
    lemma_regroup(texts, header, skip, errors, sample);
    let four = header + skip + errors + sample;
    let varchar = flagged("all_varchar"@, o.all_varchar);
    assert(texts + four + varchar == texts + (four + varchar));
}

proof fn lemma_regroup(
    x: Seq<Seq<char>>,
    a: Seq<Seq<char>>,
    b: Seq<Seq<char>>,
    c: Seq<Seq<char>>,
    d: Seq<Seq<char>>,
)
    ensures
        x + a + b + c + d == x + (a + b + c + d),
{
    assert(x + a + b + c + d =~= x + (a + b + c + d));
}

proof fn lemma_contains_in(a: Seq<Seq<char>>, b: Seq<Seq<char>>, c: Seq<Seq<char>>, w: Seq<char>)
    requires
        a.contains(w) || b.contains(w) || c.contains(w),
    ensures
        (a + b + c).contains(w),
{
    let all = a + b + c;
    if a.contains(w) {
        let i = a.index_of(w);
        assert(all[i] == w);
    } else if b.contains(w) {
        let i = b.index_of(w);
        assert(all[a.len() + i] == w);
    } else {
        let i = c.index_of(w);
        assert(all[a.len() + b.len() + i] == w);
    }
}

proof fn lemma_four(
    a: Seq<Seq<char>>,
    b: Seq<Seq<char>>,
    c: Seq<Seq<char>>,
    d: Seq<Seq<char>>,
    w: Seq<char>,
)
    requires
        a == seq![w] || b == seq![w] || c == seq![w] || d == seq![w],
    ensures
        (a + b + c + d).contains(w),
{
    let all = a + b + c + d;
    if a == seq![w] {
        assert(all[0] == w);
    } else if b == seq![w] {
        assert(all[a.len() as int] == w);
    } else if c == seq![w] {
        assert(all[(a.len() + b.len()) as int] == w);
    } else {
        assert(all[(a.len() + b.len() + c.len()) as int] == w);
    }
}

/// A text option of either group is among the arguments.
proof fn lemma_text_passed(o: CsvOptionsView)
    ensures
        ({
            let words = csv_words(o);
            &&& passes_text(words, "delim"@, o.delimiter)
            &&& passes_text(words, "quote"@, o.quote)
            &&& passes_text(words, "escape"@, o.escape)
            &&& passes_text(words, "decimal_separator"@, o.decimal)
            &&& passes_text(words, "encoding"@, o.encoding)
            &&& passes_text(words, "nullstr"@, o.null_string)
            &&& passes_text(words, "dateformat"@, o.date_format)
            &&& passes_text(words, "timestampformat"@, o.timestamp_format)
        }),
{
    lemma_groups(o);
    lemma_first_texts(o, "delim"@, o.delimiter);
    lemma_first_texts(o, "quote"@, o.quote);
    lemma_first_texts(o, "escape"@, o.escape);
    lemma_first_texts(o, "decimal_separator"@, o.decimal);
    lemma_last_texts(o, "encoding"@, o.encoding);
    lemma_last_texts(o, "nullstr"@, o.null_string);
    lemma_last_texts(o, "dateformat"@, o.date_format);
    lemma_last_texts(o, "timestampformat"@, o.timestamp_format);
}

proof fn lemma_first_texts(o: CsvOptionsView, name: Seq<char>, value: Option<Seq<char>>)
    requires
        (name == "delim"@ && value == o.delimiter) || (name == "quote"@ && value == o.quote) || (
        name == "escape"@ && value == o.escape) || (name == "decimal_separator"@ && value
            == o.decimal),
    ensures
        passes_text(texts_first(o) + texts_last(o) + rest_of(o), name, value),
{
    if says_something(value) {
        let w = name + " = "@ + quote::literal(value->Some_0);
        assert(worded(name, value) == seq![w]);
        lemma_four(
            worded("delim"@, o.delimiter),
            worded("quote"@, o.quote),
            worded("escape"@, o.escape),
            worded("decimal_separator"@, o.decimal),
            w,
        );
        lemma_contains_in(texts_first(o), texts_last(o), rest_of(o), w);
    }
}

proof fn lemma_last_texts(o: CsvOptionsView, name: Seq<char>, value: Option<Seq<char>>)
    requires
        (name == "encoding"@ && value == o.encoding) || (name == "nullstr"@ && value
            == o.null_string) || (name == "dateformat"@ && value == o.date_format) || (name
            == "timestampformat"@ && value == o.timestamp_format),
    ensures
        passes_text(texts_first(o) + texts_last(o) + rest_of(o), name, value),
{
    if says_something(value) {
        let w = name + " = "@ + quote::literal(value->Some_0);
        assert(worded(name, value) == seq![w]);
        lemma_four(
            worded("encoding"@, o.encoding),
            worded("nullstr"@, o.null_string),
            worded("dateformat"@, o.date_format),
            worded("timestampformat"@, o.timestamp_format),
            w,
        );
        lemma_contains_in(texts_first(o), texts_last(o), rest_of(o), w);
    }
}

proof fn lemma_rest_passed(o: CsvOptionsView, part: Seq<Seq<char>>, w: Seq<char>)
    requires
        part == seq![w],
        part == flagged("header"@, o.header) || part == counted(
            "skip"@,
            match o.skip {
                Some(n) => Some(n as int),
                None => None,
            },
        ) || part == flagged("ignore_errors"@, o.ignore_errors) || part == counted(
            "sample_size"@,
            match o.sample_size {
                Some(n) => Some(n as int),
                None => None,
            },
        ) || part == flagged("all_varchar"@, o.all_varchar),
    ensures
        csv_words(o).contains(w),
{
    lemma_groups(o);
    let a = flagged("header"@, o.header);
    let b = counted(
        "skip"@,
        match o.skip {
            Some(n) => Some(n as int),
            None => None,
        },
    );
    let c = flagged("ignore_errors"@, o.ignore_errors);
    let d = counted(
        "sample_size"@,
        match o.sample_size {
            Some(n) => Some(n as int),
            None => None,
        },
    );
    let e = flagged("all_varchar"@, o.all_varchar);
    let all = a + b + c + d + e;
    assert(rest_of(o) == all);
    if part == e {
        assert(all[(a.len() + b.len() + c.len() + d.len()) as int] == w);
    } else {
        lemma_four(a, b, c, d, w);
        let four = a + b + c + d;
        let i = four.index_of(w);
        assert(all[i] == w);
    }
    assert(rest_of(o).contains(w));
    lemma_contains_in(texts_first(o), texts_last(o), rest_of(o), w);
}

/// How many options are set.
pub open spec fn options_set(o: CsvOptionsView) -> nat {
    one_if(says_something(o.delimiter)) + one_if(
                says_something(o.quote),
            ) + one_if(says_something(o.escape)) + one_if(says_something(o.decimal)) + one_if(
                says_something(o.encoding),
            ) + one_if(says_something(o.null_string)) + one_if(says_something(o.date_format))
                + one_if(says_something(o.timestamp_format)) + one_if(o.header is Some) + one_if(
                o.skip is Some,
            ) + one_if(o.ignore_errors is Some) + one_if(o.sample_size is Some) + one_if(
                o.all_varchar is Some,
            )
}

#[verifier::spinoff_prover]
proof fn lemma_words_len(o: CsvOptionsView)
    ensures
        csv_words(o).len() == options_set(o),
{
}

#[verifier::spinoff_prover]
proof fn lemma_flags_passed(o: CsvOptionsView)
    ensures
        passes_flag(csv_words(o), "header"@, o.header),
        passes_flag(csv_words(o), "ignore_errors"@, o.ignore_errors),
        passes_flag(csv_words(o), "all_varchar"@, o.all_varchar),
{
    if o.header is Some {
        let b = o.header->Some_0;
        lemma_rest_passed(o, flagged("header"@, o.header), "header"@ + " = "@ + text::truth(b));
    }
    if o.ignore_errors is Some {
        let b = o.ignore_errors->Some_0;
        lemma_rest_passed(
            o,
            flagged("ignore_errors"@, o.ignore_errors),
            "ignore_errors"@ + " = "@ + text::truth(b),
        );
    }
    if o.all_varchar is Some {
        let b = o.all_varchar->Some_0;
        lemma_rest_passed(
            o,
            flagged("all_varchar"@, o.all_varchar),
            "all_varchar"@ + " = "@ + text::truth(b),
        );
    }
}

#[verifier::spinoff_prover]
proof fn lemma_counts_passed(o: CsvOptionsView)
    ensures
        o.skip matches Some(n) ==> csv_words(o).contains("skip = "@ + text::signed(n as int)),
        o.sample_size matches Some(n) ==> csv_words(o).contains(
            "sample_size = "@ + text::signed(n as int),
        ),
{
    reveal_strlit(" = ");
    if o.skip is Some {
        let n = o.skip->Some_0 as int;
        reveal_strlit("skip");
        reveal_strlit("skip = ");
        assert("skip = "@ == "skip"@ + " = "@);
        lemma_rest_passed(o, counted("skip"@, Some(n)), "skip"@ + " = "@ + text::signed(n));
    }
    if o.sample_size is Some {
        let n = o.sample_size->Some_0 as int;
        reveal_strlit("sample_size");
        reveal_strlit("sample_size = ");
        assert("sample_size = "@ == "sample_size"@ + " = "@);
        lemma_rest_passed(
            o,
            counted("sample_size"@, Some(n)),
            "sample_size"@ + " = "@ + text::signed(n),
        );
    }
}

/// Every CSV option that is set is passed to the reader by the name the reader knows it
/// by, and nothing that is not set is passed.
#[verifier::spinoff_prover]
pub proof fn law_every_option_reaches_the_reader(o: CsvOptionsView)
    ensures
        ({
            let words = csv_words(o);
            &&& words.len() == options_set(o)
            &&& passes_text(words, "delim"@, o.delimiter)
            &&& passes_text(words, "quote"@, o.quote)
            &&& passes_text(words, "escape"@, o.escape)
            &&& passes_text(words, "decimal_separator"@, o.decimal)
            &&& passes_text(words, "encoding"@, o.encoding)
            &&& passes_text(words, "nullstr"@, o.null_string)
            &&& passes_text(words, "dateformat"@, o.date_format)
            &&& passes_text(words, "timestampformat"@, o.timestamp_format)
            &&& passes_flag(words, "header"@, o.header)
            &&& passes_flag(words, "ignore_errors"@, o.ignore_errors)
            &&& passes_flag(words, "all_varchar"@, o.all_varchar)
            &&& o.skip matches Some(n) ==> words.contains("skip = "@ + text::signed(n as int))
            &&& o.sample_size matches Some(n) ==> words.contains(
                "sample_size = "@ + text::signed(n as int),
            )
        }),
{
    lemma_text_passed(o);
    lemma_words_len(o);
    lemma_flags_passed(o);
    lemma_counts_passed(o);
}

/// A folder read as one table has the rows of every file in it, in the order the files are
/// listed, and beside the columns of the files one that names the file a row came from;
/// the path the reader reports for that is not kept.
pub proof fn law_a_folder_is_read_file_by_file(set: DataSetView, options: FileOptionsView)
    requires
        set.tagged,
        !(set.format is Excel),
        !(set.format is Delta),
    ensures
        ({
            let head =
                "SELECT * EXCLUDE (filename), parse_filename(filename, trim_extension := true, separator := 'both') AS "@
                + quote::identifier("source_file"@) + " FROM "@;
            let files = "(["@ + quote::literals(set.files) + "]"@;
            match set.format {
                FileFormat::Csv => select(set, options) == Some(
                    head + "read_csv"@ + files + further(csv_words(options.csv))
                        + ", filename = true)"@,
                ),
                FileFormat::Parquet => select(set, options) == Some(
                    head + "read_parquet"@ + files + ", filename = true)"@,
                ),
                FileFormat::Json => select(set, options) == Some(
                    head + "read_json"@ + files + ", filename = true)"@,
                ),
                _ => select(set, options) == Some(
                    head + "read_json"@ + files + ", format = 'newline_delimited'"@
                        + ", filename = true)"@,
                ),
            }
        }),
{
    let head =
        "SELECT * EXCLUDE (filename), parse_filename(filename, trim_extension := true, separator := 'both') AS "@
        + quote::identifier("source_file"@) + " FROM "@;
    let list = "["@ + quote::literals(set.files) + "]"@;
    let last = seq!["filename = true"@];
    let words: Seq<Seq<char>> = match set.format {
        FileFormat::Csv => csv_words(options.csv),
        FileFormat::JsonLines => seq!["format = 'newline_delimited'"@],
        _ => Seq::empty(),
    };
    let function = reads(set.format)->Some_0;
    assert(arguments(set, options) == seq![list] + (words + last));
    lemma_further(list, words + last);
    assert((words + last).drop_last() == words);
    assert(further(words + last) == further(words) + ", "@ + "filename = true"@);
    lemma_tagged_text(head, function, quote::literals(set.files), further(words));
    if set.format is JsonLines {
        assert(words.drop_last() == Seq::<Seq<char>>::empty());
        reveal_strlit(", ");
        reveal_strlit("format = 'newline_delimited'");
        reveal_strlit(", format = 'newline_delimited'");
        assert(further(Seq::<Seq<char>>::empty()) == Seq::<char>::empty());
        assert(further(words) == further(words.drop_last()) + ", "@ + words.last());
        assert(further(words) == ", format = 'newline_delimited'"@);
    } else if !(set.format is Csv) {
        let files = "(["@ + quote::literals(set.files) + "]"@;
        assert(head + function + files + further(words) == head + function + files);
    }
}

proof fn lemma_tagged_text(
    head: Seq<char>,
    function: Seq<char>,
    list: Seq<char>,
    more: Seq<char>,
)
    ensures
        head + (function + "("@ + ("["@ + list + "]"@ + (more + ", "@ + "filename = true"@)) + ")"@)
            == head + function + ("(["@ + list + "]"@) + more + ", filename = true)"@,
{
    reveal_strlit("(");
    reveal_strlit("[");
    reveal_strlit("([");
    reveal_strlit(")");
    reveal_strlit(", ");
    reveal_strlit("filename = true");
    reveal_strlit(", filename = true)");
    assert("(["@ == "("@ + "["@);
    assert(", filename = true)"@ == ", "@ + "filename = true"@ + ")"@);
    assert(head + (function + "("@ + ("["@ + list + "]"@ + (more + ", "@ + "filename = true"@))
        + ")"@) =~= head + function + (("("@ + "["@) + list + "]"@) + more + (", "@
        + "filename = true"@ + ")"@));
}

/// A Delta table is read by its directory, and a spreadsheet by no statement at all.
pub proof fn law_what_has_no_list_of_files(set: DataSetView, options: FileOptionsView)
    ensures
        set.format is Excel ==> select(set, options) is None,
        set.format is Delta && set.files.len() == 0 ==> select(set, options) is None,
        set.format is Delta && set.files.len() > 0 ==> select(set, options) == Some(
            "SELECT * FROM delta_scan("@ + quote::literal(set.files[0]) + ")"@,
        ),
{
    reveal_strlit("SELECT * FROM ");
    reveal_strlit("(");
    reveal_strlit("delta_scan");
    reveal_strlit("SELECT * FROM delta_scan(");
    assert("SELECT * FROM delta_scan("@ == "SELECT * FROM "@ + "delta_scan"@ + "("@);
}

// ------------------------------------------------------------------ laws of the walk

/// A file stands below a folder, along a trail of folders none of which is passed over.
pub open spec fn lies(children: Seq<ChildView>, trail: Seq<Seq<char>>, name: Seq<char>) -> bool
    decreases trail.len(),
{
    if trail.len() == 0 {
        exists|i: int|
            0 <= i < children.len() && is_file_named(#[trigger] children[i], name)
    } else {
        exists|i: int|
            0 <= i < children.len() && leads(#[trigger] children[i], trail[0]) && lies(
                children[i]->Folder_children,
                trail.skip(1),
                name,
            )
    }
}

pub open spec fn is_file_named(child: ChildView, wanted: Seq<char>) -> bool {
    child matches ChildView::File { name, .. } && name == wanted
}

pub open spec fn leads(child: ChildView, wanted: Seq<char>) -> bool {
    child matches ChildView::Folder { name, .. } && name == wanted && !tree::passed_over(name)
}

/// Where a trail of folders leads from a directory.
pub open spec fn down(here: Seq<char>, trail: Seq<Seq<char>>, windows: bool) -> Seq<char>
    decreases trail.len(),
{
    if trail.len() == 0 {
        here
    } else {
        down(paths::join(here, trail[0], windows), trail.skip(1), windows)
    }
}

/// [`down`], of a path that is relative to the root.
pub open spec fn down_relative(relative: Seq<char>, trail: Seq<Seq<char>>) -> Seq<char>
    decreases trail.len(),
{
    if trail.len() == 0 {
        relative
    } else {
        down_relative(tree::under(relative, trail[0]), trail.skip(1))
    }
}

/// A file is in a directory that was found.
pub open spec fn has_file(
    directories: Seq<DirectoryView>,
    relative: Seq<char>,
    address: Seq<char>,
) -> bool {
    exists|d: int|
        0 <= d < directories.len() && (#[trigger] directories[d]).relative == relative
            && directories[d].files.contains(address)
}

pub open spec fn goes_on_from(after: Found, before: Found) -> bool {
    &&& before.count <= after.count
    &&& before.directories.len() <= after.directories.len()
    &&& after.directories.take(before.directories.len() as int) == before.directories
}

proof fn lemma_file_stays(after: Found, before: Found, relative: Seq<char>, address: Seq<char>)
    requires
        goes_on_from(after, before),
        has_file(before.directories, relative, address),
    ensures
        has_file(after.directories, relative, address),
{
    let d = choose|d: int|
        0 <= d < before.directories.len() && (#[trigger] before.directories[d]).relative == relative
            && before.directories[d].files.contains(address);
    assert(after.directories.take(before.directories.len() as int)[d] == after.directories[d]);
}

proof fn lemma_goes_on(a: Found, b: Found, c: Found)
    requires
        goes_on_from(b, a),
        goes_on_from(c, b),
    ensures
        goes_on_from(c, a),
{
    let n = a.directories.len() as int;
    assert(c.directories.take(n) == b.directories.take(n)) by {
        assert forall|i: int| 0 <= i < n implies c.directories[i] == b.directories[i] by {
            assert(c.directories.take(b.directories.len() as int)[i] == c.directories[i]);
        }
        assert(c.directories.take(n) =~= b.directories.take(n));
    }
}

/// What a folder holds, before its own folders are walked.
pub open spec fn taken_here(
    children: Seq<ChildView>,
    here: Seq<char>,
    windows: bool,
    relative: Seq<char>,
    format: Option<FileFormat>,
    excluded: Seq<Seq<char>>,
    found: Found,
) -> Found {
    let names = read_here(children, relative, format, excluded, (MAX_FILES - found.count) as nat);
    Found {
        directories: if names.len() == 0 {
            found.directories
        } else {
            found.directories.push(
                DirectoryView {
                    relative: tree::slashed(relative),
                    files: order::alphabetical(addresses(here, windows, names)),
                },
            )
        },
        count: found.count + names.len(),
    }
}

proof fn lemma_walk_goes_on(
    children: Seq<ChildView>,
    here: Seq<char>,
    windows: bool,
    relative: Seq<char>,
    depth: nat,
    format: Option<FileFormat>,
    excluded: Seq<Seq<char>>,
    found: Found,
)
    ensures
        goes_on_from(
            collected(children, here, windows, relative, depth, format, excluded, found),
            found,
        ),
    decreases MAX_DEPTH + 1 - depth, 0nat,
{
    if depth > MAX_DEPTH || found.count >= MAX_FILES {
        assert(found.directories.take(found.directories.len() as int) == found.directories);
    } else {
        let next = taken_here(children, here, windows, relative, format, excluded, found);
        assert(next.directories.take(found.directories.len() as int) == found.directories);
        let folders = order::sorted_by(walked_folders(children), tree::by_folder());
        lemma_walk_all_goes_on(folders, here, windows, relative, depth + 1, format, excluded, next);
        lemma_goes_on(
            found,
            next,
            collected_all(folders, here, windows, relative, depth + 1, format, excluded, next),
        );
    }
}

proof fn lemma_walk_all_goes_on(
    folders: Seq<(Seq<char>, Seq<ChildView>)>,
    here: Seq<char>,
    windows: bool,
    relative: Seq<char>,
    depth: nat,
    format: Option<FileFormat>,
    excluded: Seq<Seq<char>>,
    found: Found,
)
    ensures
        goes_on_from(
            collected_all(folders, here, windows, relative, depth, format, excluded, found),
            found,
        ),
    decreases MAX_DEPTH + 1 - depth, folders.len() + 1,
{
    if folders.len() == 0 {
        assert(found.directories.take(found.directories.len() as int) == found.directories);
    } else {
        let fewer = folders.drop_last();
        lemma_walk_all_goes_on(fewer, here, windows, relative, depth, format, excluded, found);
        let before = collected_all(fewer, here, windows, relative, depth, format, excluded, found);
        let (name, inside) = folders.last();
        let below = paths::join(here, name, windows);
        let named = tree::under(relative, name);
        lemma_walk_goes_on(inside, below, windows, named, depth, format, excluded, before);
        lemma_goes_on(
            found,
            before,
            collected(inside, below, windows, named, depth, format, excluded, before),
        );
    }
}

/// Where there is room left, everything here that is kept was read.
proof fn lemma_all_read(
    children: Seq<ChildView>,
    relative: Seq<char>,
    format: Option<FileFormat>,
    excluded: Seq<Seq<char>>,
    limit: nat,
    i: int,
    name: Seq<char>,
)
    requires
        0 <= i < children.len(),
        is_file_named(children[i], name),
        kept(tree::under(relative, name), format, excluded),
        read_here(children, relative, format, excluded, limit).len() < limit,
    ensures
        read_here(children, relative, format, excluded, limit).contains(name),
    decreases children.len(),
{
    let before = read_here(children.drop_last(), relative, format, excluded, limit);
    let all = read_here(children, relative, format, excluded, limit);
    if i == children.len() - 1 {
        assert(all[all.len() - 1] == name);
    } else {
        lemma_all_read(children.drop_last(), relative, format, excluded, limit, i, name);
        let k = before.index_of(name);
        assert(all[k] == name);
    }
}

proof fn lemma_walked(children: Seq<ChildView>, i: int, name: Seq<char>)
    requires
        0 <= i < children.len(),
        leads(children[i], name),
    ensures
        order::sorted_by(walked_folders(children), tree::by_folder()).contains(
            (name, children[i]->Folder_children),
        ),
{
    broadcast use vstd::seq_lib::group_to_multiset_ensures;

    lemma_walked_unsorted(children, i, name);
    let found = walked_folders(children);
    let item = (name, children[i]->Folder_children);
    order::lemma_sorted_by_multiset(found, tree::by_folder());
    assert(found.to_multiset().count(item) > 0);
}

proof fn lemma_walked_unsorted(children: Seq<ChildView>, i: int, name: Seq<char>)
    requires
        0 <= i < children.len(),
        leads(children[i], name),
    ensures
        walked_folders(children).contains((name, children[i]->Folder_children)),
    decreases children.len(),
{
    let all = walked_folders(children);
    let item = (name, children[i]->Folder_children);
    if i == children.len() - 1 {
        assert(all[all.len() - 1] == item);
    } else {
        lemma_walked_unsorted(children.drop_last(), i, name);
        let k = walked_folders(children.drop_last()).index_of(item);
        assert(all[k] == item);
    }
}

/// What was found in one of the folders is found in the end.
proof fn lemma_one_of_all(
    folders: Seq<(Seq<char>, Seq<ChildView>)>,
    here: Seq<char>,
    windows: bool,
    relative: Seq<char>,
    depth: nat,
    format: Option<FileFormat>,
    excluded: Seq<Seq<char>>,
    found: Found,
    k: int,
) -> (before: Found)
    requires
        0 <= k < folders.len(),
    ensures
        goes_on_from(
            collected_all(folders, here, windows, relative, depth, format, excluded, found),
            collected(
                folders[k].1,
                paths::join(here, folders[k].0, windows),
                windows,
                tree::under(relative, folders[k].0),
                depth,
                format,
                excluded,
                before,
            ),
        ),
    decreases folders.len(),
{
    let fewer = folders.drop_last();
    let so_far = collected_all(fewer, here, windows, relative, depth, format, excluded, found);
    let all = collected_all(folders, here, windows, relative, depth, format, excluded, found);
    let (name, inside) = folders.last();
    let below = paths::join(here, name, windows);
    let named = tree::under(relative, name);
    lemma_walk_goes_on(inside, below, windows, named, depth, format, excluded, so_far);
    if k == folders.len() - 1 {
        assert(all.directories.take(all.directories.len() as int) == all.directories);
        so_far
    } else {
        let before = lemma_one_of_all(
            fewer,
            here,
            windows,
            relative,
            depth,
            format,
            excluded,
            found,
            k,
        );
        lemma_goes_on(
            collected(
                fewer[k].1,
                paths::join(here, fewer[k].0, windows),
                windows,
                tree::under(relative, fewer[k].0),
                depth,
                format,
                excluded,
                before,
            ),
            so_far,
            all,
        );
        before
    }
}

/// Every file worth reading is found, in the directory it stands in, unless it lies too
/// deep or there are more files than a source may hold.
pub proof fn law_every_file_worth_reading_is_found(
    children: Seq<ChildView>,
    here: Seq<char>,
    windows: bool,
    relative: Seq<char>,
    depth: nat,
    format: Option<FileFormat>,
    excluded: Seq<Seq<char>>,
    found: Found,
    trail: Seq<Seq<char>>,
    name: Seq<char>,
)
    requires
        lies(children, trail, name),
        depth + trail.len() <= MAX_DEPTH,
        kept(tree::under(down_relative(relative, trail), name), format, excluded),
        collected(children, here, windows, relative, depth, format, excluded, found).count
            < MAX_FILES,
    ensures
        has_file(
            collected(
                children,
                here,
                windows,
                relative,
                depth,
                format,
                excluded,
                found,
            ).directories,
            tree::slashed(down_relative(relative, trail)),
            tree::slashed(paths::join(down(here, trail, windows), name, windows)),
        ),
    decreases trail.len(),
{
    broadcast use vstd::seq_lib::group_to_multiset_ensures;

    let all = collected(children, here, windows, relative, depth, format, excluded, found);
    lemma_walk_goes_on(children, here, windows, relative, depth, format, excluded, found);
    let limit = (MAX_FILES - found.count) as nat;
    let names = read_here(children, relative, format, excluded, limit);
    let next = taken_here(children, here, windows, relative, format, excluded, found);
    let folders = order::sorted_by(walked_folders(children), tree::by_folder());
    lemma_walk_all_goes_on(folders, here, windows, relative, depth + 1, format, excluded, next);
    if trail.len() == 0 {
        let i = choose|i: int|
            0 <= i < children.len() && is_file_named(#[trigger] children[i], name);
        lemma_all_read(children, relative, format, excluded, limit, i, name);
        let list = addresses(here, windows, names);
        let address = tree::slashed(paths::join(here, name, windows));
        let k = names.index_of(name);
        assert(list[k] == address);
        order::lemma_sorted_by_multiset(list, order::by_text());
        assert(list.to_multiset().count(address) > 0);
        assert(order::alphabetical(list).contains(address));
        let d = found.directories.len() as int;
        assert(next.directories[d].relative == tree::slashed(relative));
        assert(has_file(next.directories, tree::slashed(relative), address));
        lemma_file_stays(all, next, tree::slashed(relative), address);
    } else {
        let i = choose|i: int|
            0 <= i < children.len() && leads(#[trigger] children[i], trail[0]) && lies(
                children[i]->Folder_children,
                trail.skip(1),
                name,
            );
        let inside = children[i]->Folder_children;
        lemma_walked(children, i, trail[0]);
        let k = folders.index_of((trail[0], inside));
        let before = lemma_one_of_all(
            folders,
            here,
            windows,
            relative,
            depth + 1,
            format,
            excluded,
            next,
            k,
        );
        let below = paths::join(here, trail[0], windows);
        let named = tree::under(relative, trail[0]);
        let part = collected(inside, below, windows, named, depth + 1, format, excluded, before);
        law_every_file_worth_reading_is_found(
            inside,
            below,
            windows,
            named,
            depth + 1,
            format,
            excluded,
            before,
            trail.skip(1),
            name,
        );
        lemma_file_stays(
            all,
            part,
            tree::slashed(down_relative(relative, trail)),
            tree::slashed(paths::join(down(here, trail, windows), name, windows)),
        );
    }
}

// ------------------------------------------------------------------ laws of the names

/// A file's name is what stands behind the last slash of its address.
pub proof fn law_a_name_stands_behind_the_last_slash(before: Seq<char>, name: Seq<char>)
    requires
        !name.contains('/'),
    ensures
        filename(name) == name,
        filename(before + seq!['/'] + name) == name,
{
    lemma_last(before, '/', name);
    text::law_a_cut_takes_one_character(name, '/');
}

proof fn lemma_last(before: Seq<char>, c: char, after: Seq<char>)
    requires
        !after.contains(c),
    ensures
        text::rsplit_once(before + seq![c] + after, c) == Some((before, after)),
{
    let s = before + seq![c] + after;
    let f = text::other_than(c);
    assert forall|i: int| s.len() - after.len() <= i < s.len() implies f(#[trigger] s[i]) by {
        assert(s[i] == after[i - before.len() - 1]);
        assert(after.contains(after[i - before.len() - 1]));
    }
    text::lemma_run_back_is(s, f, after.len() as int);
    assert(s.take(before.len() as int) == before);
    assert(s.skip(before.len() as int + 1) == after);
}

/// A table is named after its file without what stands behind the last dot, unless nothing
/// would be left.
pub proof fn law_a_stem_ends_before_the_last_dot(stem: Seq<char>, extension: Seq<char>)
    requires
        !extension.contains('.'),
    ensures
        stem_of(extension) == extension,
        stem.len() > 0 ==> stem_of(stem + seq!['.'] + extension) == stem,
        stem.len() == 0 ==> stem_of(stem + seq!['.'] + extension) == seq!['.'] + extension,
{
    lemma_last(stem, '.', extension);
    text::law_a_cut_takes_one_character(extension, '.');
    if stem.len() == 0 {
        assert(stem + seq!['.'] + extension == seq!['.'] + extension);
    }
}

/// A name that nobody has is kept as it is; a second claim to it takes the longer form.
pub proof fn law_a_free_name_is_kept(
    first: Seq<char>,
    second: Seq<char>,
    taken: Seq<Seq<char>>,
)
    ensures
        !taken.contains(first) ==> chosen(first, second, taken) == first,
        taken.contains(first) && !taken.contains(second) ==> chosen(first, second, taken) == second,
        !taken.contains(chosen(first, second, taken)),
{
    law_an_unclaimed_name_is_unclaimed(second, taken);
}

/// A file becomes the table of its name, and a folder the table of its own.
pub proof fn law_a_table_is_named_after_its_file(
    before: Seq<char>,
    stem: Seq<char>,
    extension: Seq<char>,
    taken: Seq<Seq<char>>,
)
    requires
        stem.len() > 0,
        !stem.contains('/'),
        !extension.contains('/'),
        !extension.contains('.'),
        !taken.contains(stem),
    ensures
        file_table(before + seq!['/'] + (stem + seq!['.'] + extension), taken) == stem,
        folder_table(before + seq!['/'] + stem, taken) == stem,
{
    let name = stem + seq!['.'] + extension;
    assert(!name.contains('/')) by {
        assert forall|i: int| 0 <= i < name.len() implies name[i] != '/' by {
            if i < stem.len() {
                assert(stem.contains(stem[i]));
            } else if i > stem.len() {
                assert(extension.contains(extension[i - stem.len() - 1]));
            }
        }
    }
    law_a_name_stands_behind_the_last_slash(before, name);
    law_a_name_stands_behind_the_last_slash(before, stem);
    law_a_stem_ends_before_the_last_dot(stem, extension);
}

/// A workbook is one table for each of its sheets, named after both, in the order of the
/// sheets; with one sheet, or one that was asked for, it keeps its name.
pub proof fn law_a_workbook_is_a_table_for_each_sheet(
    set: DataSetView,
    wanted: Option<Seq<char>>,
    sheets: Map<Seq<char>, Vec<String>>,
)
    requires
        set.files.len() > 0,
    ensures
        !(set.format is Excel) ==> apart(set, wanted, sheets) == seq![set],
        set.format is Excel && wanted is Some ==> apart(set, wanted, sheets) == seq![
            DataSetView { sheet: wanted, ..set },
        ],
        set.format is Excel && wanted is None && sheets.contains_key(set.files[0]) ==> {
            let names = text::views(sheets[set.files[0]]@);
            let out = apart(set, wanted, sheets);
            &&& names.len() > 1 ==> out.len() == names.len() && forall|i: int|
                0 <= i < names.len() ==> (#[trigger] out[i]).name == set.name + "_"@ + names[i]
                    && out[i].sheet == Some(names[i]) && out[i].files == set.files && out[i].format
                    == set.format && out[i].tagged == set.tagged
            &&& names.len() == 1 ==> out == seq![
                DataSetView { sheet: Some(names[0]), ..set },
            ]
        },
{
}

/// An error names the one file, or the directory and how many are in it.
pub proof fn law_an_error_names_what_was_read(
    set: DataSetView,
    directory: Seq<char>,
    name: Seq<char>,
)
    requires
        !name.contains('/'),
    ensures
        set.files.len() == 1 ==> called(set) == set.files[0],
        set.files.len() == 0 ==> called(set) == set.name,
        set.files.len() > 1 && set.files[0] == directory + seq!['/'] + name ==> called(set)
            == directory + " ("@ + text::decimal(set.files.len()) + " files)"@,
{
    lemma_last(directory, '/', name);
}

/// A file is kept exactly where its extension is one of its format's, or of any format
/// where none was declared, and it was not excluded.
pub proof fn law_a_file_is_kept_for_its_extension(
    relative: Seq<char>,
    format: FileFormat,
    excluded: Seq<Seq<char>>,
)
    ensures
        left_out(excluded, tree::slashed(relative)) ==> !kept(relative, Some(format), excluded)
            && !kept(relative, None, excluded),
        paths::extension(relative, false) is None ==> !kept(relative, Some(format), excluded)
            && !kept(relative, None, excluded),
        paths::extension(relative, false) matches Some(e) ==> !left_out(
            excluded,
            tree::slashed(relative),
        ) ==> {
            &&& kept(relative, Some(format), excluded) <==> format.extension_list().contains(
                text::ascii_lower(e),
            )
            &&& kept(relative, None, excluded) <==> FileFormat::for_extension(e) is Some
        },
{
}

/// A Delta table is the directory its log stands in.
pub proof fn law_a_table_is_where_its_log_is(table: Seq<char>, rest: Seq<char>)
    requires
        table.len() > 0,
        table.last() != '/',
        !text::starts_with(table + "/_delta_log/"@ + rest, "_delta_log/"@),
        text::find(table + "/_delta_log/"@ + rest, "/_delta_log/"@) == Some(table.len()),
    ensures
        before_log(table + "/_delta_log/"@ + rest) == Some(table),
        before_log("_delta_log/"@ + rest) == Some(Seq::<char>::empty()),
{
    let path = table + "/_delta_log/"@ + rest;
    assert(path.take(table.len() as int) == table);
    text::lemma_run_back_is(table, text::exactly('/'), 0);
    assert(table.take(table.len() as int) == table);
    let root = "_delta_log/"@ + rest;
    assert(root.take("_delta_log/"@.len() as int) == "_delta_log/"@);
}

/// The statement of a table that is one file selects everything its reader finds in that
/// file, and ends there.
pub proof fn law_a_query_reads_its_one_file(set: &DataSet, options: &FileOptions, r: Option<String>)
    requires
        call_ensures(DataSet::query, (set, options), r),
        set.files@.len() == 1,
        !set.tagged,
    ensures
        ({
            let path = quote::literal(set.files@[0]@);
            match set.format {
                FileFormat::Csv => no_option(options@.csv) ==> text::opt(r) == Some(
                    "SELECT * FROM read_csv("@ + path + ")"@,
                ),
                FileFormat::Parquet => text::opt(r) == Some(
                    "SELECT * FROM read_parquet("@ + path + ")"@,
                ),
                FileFormat::Json => text::opt(r) == Some("SELECT * FROM read_json("@ + path + ")"@),
                FileFormat::JsonLines => text::opt(r) == Some(
                    "SELECT * FROM read_json("@ + path + ", format = 'newline_delimited')"@,
                ),
                FileFormat::Delta => text::opt(r) == Some(
                    "SELECT * FROM delta_scan("@ + path + ")"@,
                ),
                FileFormat::Excel => r is None,
            }
        }),
{
    law_one_file_is_read_as_it_is(set@, options@);
    assert(set@.files[0] == set.files@[0]@);
}

/// A path is read by the function for the format its extension means.
pub proof fn law_a_path_is_read_by_its_extension(path: Seq<char>, windows: bool)
    ensures
        paths::extension(path, windows) is None ==> reads_path(path, windows) is None,
        paths::extension(path, windows) matches Some(e) ==> {
            &&& FileFormat::for_extension(e) == Some(FileFormat::Csv) ==> reads_path(path, windows)
                == Some("read_csv"@)
            &&& FileFormat::for_extension(e) == Some(FileFormat::Parquet) ==> reads_path(
                path,
                windows,
            ) == Some("read_parquet"@)
            &&& FileFormat::for_extension(e) == Some(FileFormat::Json) || FileFormat::for_extension(
                e,
            ) == Some(FileFormat::JsonLines) ==> reads_path(path, windows) == Some("read_json"@)
            &&& FileFormat::for_extension(e) == Some(FileFormat::Excel)
                || FileFormat::for_extension(e) is None ==> reads_path(path, windows) is None
        },
{
}

} // verus!
