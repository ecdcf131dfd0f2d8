//! What is asked of a folder or file source, wherever its files are.

use crate::connectors::files::{self, DataSet, DataSetView, Directory, DirectoryView};
use crate::connectors::files::{FILE_COLUMN, ROOT_SCHEMA};
use crate::error::{Error, ErrorView};
use crate::federation::excel::{self, Sheet};
use crate::federation::Materialised;
use crate::federation::quote;
use crate::federation::session::{self, AzureAccess, Order, Sandbox, SandboxView};
use crate::model::{
    self, ColumnInfo, ColumnMeta, ColumnMetaView, Dialect, FileFormat, FileOptions,
    FileOptionsView, LogicalType, SourceConfig, SourceConfigView, SourceKind, TableInfo, TableKind,
};
use crate::order::{self, Ranked};
use crate::paths;
use crate::table::{self, Table};
use crate::text;
use crate::tree::{self, Child, ChildView};
use vstd::prelude::*;
use vstd::string::*;

verus! {

/// What was found where a source's files are.
pub struct Seen<'a> {
    /// What the folder holds.
    pub children: &'a Vec<Child>,
    /// The sheets of each workbook, by its address.
    pub sheets: &'a Table<Vec<String>>,
}

/// Where a source's files are, and therefore what sort of session reads them.
pub enum Place {
    /// A folder, or one file, on this machine, whose paths may be written the Windows way.
    Local { root: String, single: bool, windows: bool },
    /// A container in Azure storage, as it was listed when the connection opened.
    Azure { access: AzureAccess, sets: Vec<DataSet> },
}

pub enum PlaceView {
    Local { root: Seq<char>, single: bool, windows: bool },
    Azure { account: Seq<char>, token: Seq<char>, catalogue: Seq<char>, sets: Seq<DataSetView> },
}

impl View for Place {
    type V = PlaceView;

    open spec fn view(&self) -> PlaceView {
        match *self {
            Place::Local { root, single, windows } => PlaceView::Local {
                root: root@,
                single,
                windows,
            },
            Place::Azure { access, sets } => PlaceView::Azure {
                account: access.account@,
                token: access.token@,
                catalogue: access.catalogue@,
                sets: files::sets_view(sets@),
            },
        }
    }
}

/// An open folder or file source.
pub struct FilesConnection {
    pub place: Place,
    pub options: FileOptions,
}

/// How to open a session for a source.
pub enum Recipe {
    /// External access off, one path granted, plus the extension the format needs.
    Confined(Sandbox, Option<String>),
    /// External access left on for one storage account, the local filesystem shut.
    Azure(AzureAccess, Option<String>),
}

// --------------------------------------------------------------------- connecting

/// The path a source names, if it names one.
pub open spec fn path_named(config: SourceConfigView) -> Option<Seq<char>> {
    match config.path {
        Some(path) => if text::trim(path).len() > 0 {
            Some(text::trim(path))
        } else {
            None
        },
        None => None,
    }
}

/// The path a folder or file source names. It has to name one.
pub fn path_of(config: &SourceConfig) -> (r: Result<String, Error>)
    ensures
        match r {
            Ok(path) => path_named(config@) == Some(path@),
            Err(e) => path_named(config@) is None && e@ == ErrorView::BadRequest(
                "source `"@ + config@.id + "` is a folder or file source and needs a path"@,
            ),
        },
{
    if let Some(path) = &config.path {
        let path = text::trimmed(path);
        if !path.as_str().is_empty() {
            return Ok(path);
        }
    }
    Err(
        Error::BadRequest(
            "source `".to_owned().concat(&config.id).concat(
                "` is a folder or file source and needs a path",
            ),
        ),
    )
}

/// Why a source cannot be opened at what its path leads to, if it cannot.
pub open spec fn misfit(
    config: SourceConfigView,
    path: Seq<char>,
    root: Seq<char>,
    is_file: bool,
    is_dir: bool,
    windows: bool,
) -> Option<Seq<char>> {
    let single = config.kind is File;
    if single && !is_file {
        Some(
            "`"@ + path
                + "` is a folder — register it as a folder source, or point this one at a file inside it"@,
        )
    } else if !single && !is_dir {
        Some(
            "`"@ + path
                + "` is a file — register it as a file source, or point this one at the folder holding it"@,
        )
    } else if single && config.options.format_for(paths::extension(root, windows)) is None {
        Some(
            "`"@ + path + "` is not a format alkyon reads ("@ + files::readable()
                + "). Say which format it is in the source's options if the extension does not give it away."@,
        )
    } else if !single && config.options.format is None {
        Some(
            "source `"@ + config.id
                + "` is a folder source and must say which file type it holds (csv, parquet, json, json_lines or excel)."@,
        )
    } else {
        None
    }
}

/// Folder and file sources.
pub struct FilesConnector;

impl FilesConnector {
    /// Open a source whose path, as [`path_of`] gives it, leads to `root`. The kind is a
    /// promise about the path, so it is checked.
    pub fn connect(
        &self,
        config: &SourceConfig,
        path: &str,
        root: String,
        is_file: bool,
        is_dir: bool,
        windows: bool,
    ) -> (r: Result<FilesConnection, Error>)
        ensures
            match r {
                Ok(c) => {
                    &&& misfit(config@, path@, root@, is_file, is_dir, windows) is None
                    &&& c.place@ == (PlaceView::Local {
                        root: root@,
                        single: config@.kind is File,
                        windows,
                    })
                    &&& c.options@ == config@.options
                },
                Err(e) => {
                    let why = misfit(config@, path@, root@, is_file, is_dir, windows);
                    why is Some && e@ == ErrorView::BadRequest(why->0)
                },
            },
    {
        let single = config.kind == SourceKind::File;
        if single && !is_file {
            return Err(
                Error::BadRequest(
                    "`".to_owned().concat(path).concat(
                        "` is a folder — register it as a folder source, or point this one at a file inside it",
                    ),
                ),
            );
        }
        if !single && !is_dir {
            return Err(
                Error::BadRequest(
                    "`".to_owned().concat(path).concat(
                        "` is a file — register it as a file source, or point this one at the folder holding it",
                    ),
                ),
            );
        }
        if single {
            let extension = paths::extension_of(&root, windows);
            let known = match &extension {
                Some(extension) => config.options.format_for(Some(extension.as_str())),
                None => config.options.format_for(None),
            };
            if known.is_none() {
                return Err(
                    Error::BadRequest(
                        "`".to_owned().concat(path).concat("` is not a format alkyon reads (").concat(
                            &files::readable_extensions(),
                        ).concat(
                            "). Say which format it is in the source's options if the extension does not give it away.",
                        ),
                    ),
                );
            }
        } else if config.options.format.is_none() {
            return Err(
                Error::BadRequest(
                    "source `".to_owned().concat(&config.id).concat(
                        "` is a folder source and must say which file type it holds (csv, parquet, json, json_lines or excel).",
                    ),
                ),
            );
        }
        Ok(
            FilesConnection {
                place: Place::Local { root, single, windows },
                options: config.options.clone(),
            },
        )
    }

    pub fn dialect(&self) -> (r: Dialect)
        ensures
            r == Dialect::DuckDb,
    {
        Dialect::DuckDb
    }
}

// ----------------------------------------------------------------------- listings

/// The folder a listed file is in, below the source's prefix.
pub open spec fn folder_of(relative: Seq<char>) -> Seq<char> {
    match text::rsplit_once(relative, '/') {
        Some((folder, _)) => folder,
        None => Seq::empty(),
    }
}

/// Those directories with one more file in the one of that name.
pub open spec fn filed(directories: Seq<DirectoryView>, folder: Seq<char>, address: Seq<char>) -> Seq<
    DirectoryView,
>
    decreases directories.len(),
{
    if directories.len() == 0 {
        seq![DirectoryView { relative: folder, files: seq![address] }]
    } else if directories[0].relative == folder {
        seq![DirectoryView { relative: folder, files: directories[0].files.push(address) }]
            + directories.skip(1)
    } else {
        seq![directories[0]] + filed(directories.skip(1), folder, address)
    }
}

/// A listing, directory by directory, in the order the directories are first named.
pub open spec fn filed_all(listing: Seq<(Seq<char>, Seq<char>)>) -> Seq<DirectoryView>
    decreases listing.len(),
{
    if listing.len() == 0 {
        Seq::empty()
    } else {
        filed(
            filed_all(listing.drop_last()),
            folder_of(listing.last().0),
            listing.last().1,
        )
    }
}

pub open spec fn with_sorted_files(directories: Seq<DirectoryView>) -> Seq<DirectoryView> {
    Seq::new(
        directories.len(),
        |i: int|
            DirectoryView {
                relative: directories[i].relative,
                files: order::alphabetical(directories[i].files),
            },
    )
}

pub open spec fn by_relative() -> spec_fn(DirectoryView, DirectoryView) -> bool {
    |a: DirectoryView, b: DirectoryView| table::before(a.relative, b.relative)
}

impl Ranked for Directory {
    open spec fn precedes(&self, other: &Self) -> bool {
        table::before(self.relative@, other.relative@)
    }

    fn ahead_of(&self, other: &Self) -> (r: bool) {
        table::comes_before(&self.relative, &other.relative)
    }

    proof fn lemma_asymmetric(a: &Self, b: &Self) {
        if table::before(a.relative@, b.relative@) && table::before(b.relative@, a.relative@) {
            table::lemma_before_transitive(a.relative@, b.relative@, a.relative@);
            table::lemma_before_irreflexive(a.relative@);
        }
    }

    proof fn lemma_steps(a: &Self, b: &Self, c: &Self) {
        table::lemma_not_before(a.relative@, b.relative@, c.relative@);
    }
}

/// A listing as the directories a folder of the same shape would have.
pub open spec fn arranged(listing: Seq<(Seq<char>, Seq<char>)>) -> Seq<DirectoryView> {
    order::sorted_by(with_sorted_files(filed_all(listing)), by_relative())
}

proof fn lemma_filed(directories: Seq<DirectoryView>, folder: Seq<char>, address: Seq<char>, at: int)
    requires
        0 <= at <= directories.len(),
        forall|j: int| 0 <= j < at ==> (#[trigger] directories[j]).relative != folder,
        at < directories.len() ==> directories[at].relative == folder,
    ensures
        filed(directories, folder, address) == if at < directories.len() {
            directories.update(
                at,
                DirectoryView { relative: folder, files: directories[at].files.push(address) },
            )
        } else {
            directories.push(DirectoryView { relative: folder, files: seq![address] })
        },
    decreases directories.len(),
{
    if directories.len() > 0 && at > 0 {
        let rest = directories.skip(1);
        assert forall|j: int| 0 <= j < at - 1 implies (#[trigger] rest[j]).relative != folder by {
            assert(rest[j] == directories[j + 1]);
        }
        lemma_filed(rest, folder, address, at - 1);
    }
    if at < directories.len() {
        assert(filed(directories, folder, address) =~= directories.update(
            at,
            DirectoryView { relative: folder, files: directories[at].files.push(address) },
        ));
    } else {
        assert(filed(directories, folder, address) =~= directories.push(
            DirectoryView { relative: folder, files: seq![address] },
        ));
    }
}

fn file_away(directories: &mut Vec<Directory>, folder: &str, address: &str)
    ensures
        files::directories_view(final(directories)@) == filed(
            files::directories_view(old(directories)@),
            folder@,
            address@,
        ),
{
    let ghost all = files::directories_view(directories@);
    let mut at: usize = 0;
    while at < directories.len() && !text::same(&directories[at].relative, folder)
        invariant
            at <= directories.len(),
            all == files::directories_view(directories@),
            forall|j: int| 0 <= j < at ==> (#[trigger] all[j]).relative != folder@,
        decreases directories.len() - at,
    {
        at = at + 1;
    }
    proof {
        if at < directories@.len() {
            assert(all[at as int] == directories@[at as int]@);
        }
        lemma_filed(all, folder@, address@, at as int);
    }
    if at < directories.len() {
        let mut found = directories.remove(at);
        let ghost before = text::views(found.files@);
        found.files.push(address.to_owned());
        assert(text::views(found.files@) == before.push(address@));
        let ghost now = found@;
        directories.insert(at, found);
        assert(files::directories_view(directories@) == all.update(at as int, now));
    } else {
        let mut one: Vec<String> = Vec::new();
        one.push(address.to_owned());
        assert(text::views(one@) == seq![address@]);
        let made = Directory { relative: folder.to_owned(), files: one };
        let ghost now = made@;
        directories.push(made);
        assert(files::directories_view(directories@) == all.push(now));
    }
}

/// A listing as directories. `listing` pairs each file's path below the source's prefix
/// with its address.
pub fn arrange(listing: &Vec<(String, String)>) -> (r: Vec<Directory>)
    ensures
        files::directories_view(r@) == arranged(files::pairs_view(listing@)),
{
    let ghost all = files::pairs_view(listing@);
    let mut directories: Vec<Directory> = Vec::new();
    let mut i: usize = 0;
    assert(files::directories_view(directories@) == filed_all(all.take(0)));
    while i < listing.len()
        invariant
            i <= listing.len(),
            all == files::pairs_view(listing@),
            files::directories_view(directories@) == filed_all(all.take(i as int)),
        decreases listing.len() - i,
    {
        let folder = match text::split_last(&listing[i].0, '/') {
            Some((folder, _)) => folder,
            None => {
                proof {
                    reveal_strlit("");
                    assert(""@ == Seq::<char>::empty());
                }
                "".to_owned()
            },
        };
        assert(folder@ == folder_of(listing@[i as int].0@));
        file_away(&mut directories, &folder, &listing[i].1);
        assert(all.take(i as int + 1).drop_last() == all.take(i as int));
        assert(all.take(i as int + 1).last() == (listing@[i as int].0@, listing@[i as int].1@));
        i = i + 1;
    }
    assert(all.take(i as int) == all);
    let ghost raw = files::directories_view(directories@);
    let ghost tidy = with_sorted_files(raw);
    let mut out: Vec<Directory> = Vec::new();
    let mut k: usize = 0;
    while k < directories.len()
        invariant
            k <= directories.len(),
            raw == files::directories_view(directories@),
            tidy == with_sorted_files(raw),
            files::directories_view(out@) == tidy.take(k as int),
        decreases directories.len() - k,
    {
        let ghost before = files::directories_view(out@);
        let sorted = Directory {
            relative: directories[k].relative.clone(),
            files: order::sort_names(text::clone_all(&directories[k].files)),
        };
        assert(raw[k as int] == directories@[k as int]@);
        let ghost now = sorted@;
        out.push(sorted);
        assert(files::directories_view(out@) == before.push(now));
        assert(tidy.take(k as int + 1) == tidy.take(k as int).push(tidy[k as int]));
        k = k + 1;
    }
    assert(tidy.take(k as int) == tidy);
    let r = order::sort(out);
    proof {
        let f = |d: Directory| d@;
        order::lemma_sorted_views(out@, f, by_relative());
        assert(out@.map_values(f) == files::directories_view(out@));
        assert(r@.map_values(f) == files::directories_view(r@));
    }
    r
}

/// Those of a listing that were not left out.
pub open spec fn included(
    listing: Seq<(Seq<char>, Seq<char>)>,
    excluded: Seq<Seq<char>>,
) -> Seq<(Seq<char>, Seq<char>)>
    decreases listing.len(),
{
    if listing.len() == 0 {
        Seq::empty()
    } else {
        let before = included(listing.drop_last(), excluded);
        if files::left_out(excluded, listing.last().0) {
            before
        } else {
            before.push(listing.last())
        }
    }
}

fn include_only(listing: &Vec<(String, String)>, excluded: &Vec<String>) -> (r: Vec<
    (String, String),
>)
    ensures
        files::pairs_view(r@) == included(files::pairs_view(listing@), text::views(excluded@)),
{
    let ghost all = files::pairs_view(listing@);
    let mut out: Vec<(String, String)> = Vec::new();
    let mut i: usize = 0;
    assert(files::pairs_view(out@) == included(all.take(0), text::views(excluded@)));
    while i < listing.len()
        invariant
            i <= listing.len(),
            all == files::pairs_view(listing@),
            files::pairs_view(out@) == included(all.take(i as int), text::views(excluded@)),
        decreases listing.len() - i,
    {
        let ghost before = files::pairs_view(out@);
        assert(all.take(i as int + 1).drop_last() == all.take(i as int));
        assert(all.take(i as int + 1).last() == (listing@[i as int].0@, listing@[i as int].1@));
        if !files::is_left_out(excluded, &listing[i].0) {
            out.push((listing[i].0.clone(), listing[i].1.clone()));
            assert(files::pairs_view(out@) == before.push(all[i as int]));
        }
        i = i + 1;
    }
    assert(all.take(i as int) == all);
    out
}

/// The tables a listing makes. There is no workbook among them to take apart.
pub open spec fn remote_tables(
    listing: Seq<(Seq<char>, Seq<char>)>,
    format: FileFormat,
    options: FileOptionsView,
) -> Seq<DataSetView> {
    if format is Delta {
        order::sorted_by(
            files::delta_sets(files::implied(listing, options.exclude)),
            files::by_name(),
        )
    } else {
        files::named(
            arranged(included(listing, options.exclude)),
            format,
            options.sheet,
            Map::empty(),
        )
    }
}

// --------------------------------------------------------------------- connection

/// The tables of a source.
pub open spec fn tables_of(
    place: PlaceView,
    options: FileOptionsView,
    children: Seq<ChildView>,
    sheets: Map<Seq<char>, Vec<String>>,
) -> Seq<DataSetView> {
    match place {
        PlaceView::Azure { sets, .. } => sets,
        PlaceView::Local { root, single, windows } => if single {
            match options.format_for(paths::extension(root, windows)) {
                Some(format) => files::all_apart(
                    seq![
                        DataSetView {
                            name: match paths::stem(root, windows) {
                                Some(stem) => stem,
                                None => "data"@,
                            },
                            files: seq![tree::slashed(root)],
                            format,
                            sheet: None,
                            tagged: false,
                        },
                    ],
                    options.sheet,
                    sheets,
                ),
                None => Seq::empty(),
            }
        } else {
            match options.format {
                Some(format) => files::tables(
                    children,
                    root,
                    windows,
                    format,
                    options,
                    sheets,
                ),
                None => Seq::empty(),
            }
        },
    }
}

/// Those of the tables whose name occurs in a text, whatever its case.
pub open spec fn mentioned(sets: Seq<DataSetView>, sql: Seq<char>) -> Seq<DataSetView>
    decreases sets.len(),
{
    if sets.len() == 0 {
        Seq::empty()
    } else {
        let before = mentioned(sets.drop_last(), sql);
        if text::contains(text::lowercase(sql), text::lowercase(sets.last().name)) {
            before.push(sets.last())
        } else {
            before
        }
    }
}

/// Whether SQL reads a name as one without quotes around it.
pub open spec fn is_bare(name: Seq<char>) -> bool {
    &&& name.len() > 0
    &&& !text::is_ascii_digit(name[0])
    &&& forall|i: int| 0 <= i < name.len() ==> bare_char(#[trigger] name[i])
}

pub open spec fn bare_char(c: char) -> bool {
    text::is_ascii_letter(c) || text::is_ascii_digit(c) || c == '_' || c == '$'
}

pub fn is_bare_identifier(name: &str) -> (r: bool)
    ensures
        r == is_bare(name@),
{
    let v = text::chars_of(name);
    if v.len() == 0 || text::ascii_digit(v[0]) {
        return false;
    }
    let mut i: usize = 0;
    while i < v.len()
        invariant
            i <= v.len(),
            v@ == name@,
            forall|j: int| 0 <= j < i ==> bare_char(#[trigger] name@[j]),
        decreases v.len() - i,
    {
        let c = v[i];
        if !(text::ascii_letter(c) || text::ascii_digit(c) || c == '_' || c == '$') {
            assert(!bare_char(name@[i as int]));
            return false;
        }
        i = i + 1;
    }
    true
}

/// The names among those that SQL would not take as they are, none of them twice.
pub open spec fn awkward(sets: Seq<DataSetView>) -> Seq<Seq<char>>
    decreases sets.len(),
{
    if sets.len() == 0 {
        Seq::empty()
    } else {
        let before = awkward(sets.drop_last());
        let name = sets.last().name;
        if is_bare(name) || before.contains(name) {
            before
        } else {
            before.push(name)
        }
    }
}

/// Those names in double quotes.
pub open spec fn in_quotes(names: Seq<Seq<char>>) -> Seq<Seq<char>> {
    Seq::new(names.len(), |i: int| "\""@ + names[i] + "\""@)
}

/// What is said of an error, where the names of the tables explain it.
pub open spec fn explained(error: ErrorView, sets: Seq<DataSetView>) -> ErrorView {
    match error {
        ErrorView::Federated(message) => if (text::contains(message, "syntax error"@)
            || text::contains(message, "Parser Error"@)) && awkward(sets).len() > 0 {
            ErrorView::Federated(
                message
                    + "\n\nThis source has tables whose names SQL reads as something other than a name, so they must be quoted: "@
                    + text::join(in_quotes(awkward(sets)), ", "@)
                    + ". Double-clicking in the explorer writes them for you."@,
            )
        } else {
            error
        },
        _ => error,
    }
}

impl FilesConnection {
    /// Read `root` as a folder of data files, with no path from a person to check first.
    pub fn over(root: String, options: FileOptions, windows: bool) -> (r: FilesConnection)
        ensures
            r.place@ == (PlaceView::Local { root: root@, single: false, windows }),
            r.options@ == options@,
    {
        FilesConnection { place: Place::Local { root, single: false, windows }, options }
    }

    /// A container in Azure storage, from a listing of it: the grouping is the one a
    /// folder gets, so a directory in a container is one table over its files.
    pub fn in_azure(
        access: AzureAccess,
        listing: &Vec<(String, String)>,
        format: FileFormat,
        options: FileOptions,
    ) -> (r: FilesConnection)
        ensures
            r.place@ == (PlaceView::Azure {
                account: access.account@,
                token: access.token@,
                catalogue: access.catalogue@,
                sets: remote_tables(files::pairs_view(listing@), format, options@),
            }),
            r.options@ == options@,
    {
        let sets = if format.is_delta() {
            files::delta_from_listing(listing, &options)
        } else {
            let none: Table<Vec<String>> = Table::new();
            let read = include_only(listing, &options.exclude);
            files::name_sets(arrange(&read), format, &options, &none)
        };
        FilesConnection { place: Place::Azure { access, sets }, options }
    }

    /// A single file is granted as a file, not as its directory. Of a storage account,
    /// nothing on this machine is granted.
    pub fn sandbox(&self) -> (r: Sandbox)
        ensures
            r@ == (match self.place@ {
                PlaceView::Local { root, single, .. } => if single {
                    SandboxView { directories: Seq::empty(), files: seq![root] }
                } else {
                    SandboxView { directories: seq![root], files: Seq::empty() }
                },
                PlaceView::Azure { .. } => SandboxView {
                    directories: Seq::empty(),
                    files: Seq::empty(),
                },
            }),
    {
        match &self.place {
            Place::Local { root, single, .. } => if *single {
                Sandbox::file(root.clone())
            } else {
                Sandbox::directory(root.clone())
            },
            Place::Azure { .. } => {
                let r = Sandbox::default();
                assert(r@.directories =~= Seq::empty());
                assert(r@.files =~= Seq::empty());
                r
            },
        }
    }

    /// The extension the source cannot be read without.
    pub open spec fn needs(&self) -> Seq<Seq<char>> {
        if self.options@.format == Some(FileFormat::Delta) {
            seq!["delta"@]
        } else {
            Seq::empty()
        }
    }

    /// How to open a session for this source.
    pub fn recipe(&self) -> (r: Recipe)
        ensures
            match (self.place@, r) {
                (PlaceView::Local { .. }, Recipe::Confined(sandbox, needs)) => {
                    &&& needed(needs) == self.needs()
                    &&& (self.place@ matches PlaceView::Local { root, single, .. } && sandbox@ == (
                    if single {
                        SandboxView { directories: Seq::empty(), files: seq![root] }
                    } else {
                        SandboxView { directories: seq![root], files: Seq::empty() }
                    }))
                },
                (
                    PlaceView::Azure { account, token, catalogue, .. },
                    Recipe::Azure(access, needs),
                ) => {
                    &&& needed(needs) == self.needs()
                    &&& access.account@ == account
                    &&& access.token@ == token
                    &&& access.catalogue@ == catalogue
                },
                _ => false,
            },
    {
        let needs: Option<String> = match self.options.format {
            Some(format) => text::own_opt(format.extension()),
            None => None,
        };
        assert(needed(needs) =~= self.needs());
        match &self.place {
            Place::Local { .. } => Recipe::Confined(self.sandbox(), needs),
            Place::Azure { access, .. } => Recipe::Azure(
                AzureAccess {
                    account: access.account.clone(),
                    token: access.token.clone(),
                    catalogue: access.catalogue.clone(),
                },
                needs,
            ),
        }
    }

    /// The tables of this source.
    pub fn sets(&self, seen: &Seen<'_>) -> (r: Vec<DataSet>)
        requires
            seen.sheets.wf(),
        ensures
            files::sets_view(r@) == tables_of(
                self.place@,
                self.options@,
                tree::seen(seen.children@),
                seen.sheets@,
            ),
    {
        match &self.place {
            Place::Azure { sets, .. } => clone_sets(sets),
            Place::Local { root, single, windows } => {
                if *single {
                    let extension = paths::extension_of(root, *windows);
                    let known = match &extension {
                        Some(extension) => self.options.format_for(Some(extension.as_str())),
                        None => self.options.format_for(None),
                    };
                    match known {
                        Some(format) => {
                            let name = match paths::stem_of(root, *windows) {
                                Some(stem) => stem,
                                None => "data".to_owned(),
                            };
                            let mut one: Vec<String> = Vec::new();
                            one.push(files::address_of(root));
                            assert(text::views(one@) == seq![tree::slashed(root@)]);
                            let mut sets: Vec<DataSet> = Vec::new();
                            let set = DataSet {
                                name,
                                files: one,
                                format,
                                sheet: None,
                                tagged: false,
                            };
                            let ghost shown = set@;
                            sets.push(set);
                            assert(files::sets_view(sets@) == seq![shown]);
                            files::expand_sheets(sets, &self.options, seen.sheets)
                        },
                        None => {
                            let none: Vec<DataSet> = Vec::new();
                            assert(files::sets_view(none@) == Seq::<DataSetView>::empty());
                            none
                        },
                    }
                } else {
                    match self.options.format {
                        Some(format) => files::walk(
                            seen.children,
                            root,
                            *windows,
                            format,
                            &self.options,
                            seen.sheets,
                        ),
                        None => {
                            let none: Vec<DataSet> = Vec::new();
                            assert(files::sets_view(none@) == Seq::<DataSetView>::empty());
                            none
                        },
                    }
                }
            },
        }
    }

    /// The tables whose name occurs anywhere in `sql`.
    ///
    /// Defining a view reads its files' headers. A view can only be referred to if its
    /// name occurs in the text, so this drops work and never a table the query could
    /// have used.
    pub fn referenced(&self, sql: &str, seen: &Seen<'_>) -> (r: Vec<DataSet>)
        requires
            seen.sheets.wf(),
        ensures
            files::sets_view(r@) == mentioned(
                tables_of(
                    self.place@,
                    self.options@,
                    tree::seen(seen.children@),
                    seen.sheets@,
                ),
                sql@,
            ),
    {
        let haystack = text::to_lowercase(sql);
        let sets = self.sets(seen);
        let ghost all = files::sets_view(sets@);
        let mut out: Vec<DataSet> = Vec::new();
        let mut i: usize = 0;
        assert(files::sets_view(out@) == mentioned(all.take(0), sql@));
        while i < sets.len()
            invariant
                i <= sets.len(),
                all == files::sets_view(sets@),
                haystack@ == text::lowercase(sql@),
                files::sets_view(out@) == mentioned(all.take(i as int), sql@),
            decreases sets.len() - i,
        {
            let ghost before = files::sets_view(out@);
            assert(all.take(i as int + 1).drop_last() == all.take(i as int));
            assert(all.take(i as int + 1).last() == sets@[i as int]@);
            if text::holds(&haystack, &text::to_lowercase(&sets[i].name)) {
                out.push(sets[i].clone());
                assert(files::sets_view(out@) == before.push(sets@[i as int]@));
            }
            i = i + 1;
        }
        assert(all.take(i as int) == all);
        out
    }

    /// Names this source exposes that SQL will not accept unquoted.
    pub fn awkward_names(&self, seen: &Seen<'_>) -> (r: Vec<String>)
        requires
            seen.sheets.wf(),
        ensures
            text::views(r@) == awkward(
                tables_of(
                    self.place@,
                    self.options@,
                    tree::seen(seen.children@),
                    seen.sheets@,
                ),
            ),
    {
        let sets = self.sets(seen);
        let ghost all = files::sets_view(sets@);
        let mut names: Vec<String> = Vec::new();
        let mut i: usize = 0;
        assert(text::views(names@) == awkward(all.take(0)));
        while i < sets.len()
            invariant
                i <= sets.len(),
                all == files::sets_view(sets@),
                text::views(names@) == awkward(all.take(i as int)),
            decreases sets.len() - i,
        {
            let ghost before = text::views(names@);
            assert(all.take(i as int + 1).drop_last() == all.take(i as int));
            assert(all.take(i as int + 1).last() == sets@[i as int]@);
            if !is_bare_identifier(&sets[i].name) && !session::is_listed(&names, &sets[i].name) {
                names.push(sets[i].name.clone());
                assert(text::views(names@) == before.push(sets@[i as int]@.name));
            }
            i = i + 1;
        }
        assert(all.take(i as int) == all);
        names
    }

    /// Add the missing sentence to a parser error, when this source has names that
    /// explain it.
    pub fn explain(&self, error: Error, seen: &Seen<'_>) -> (r: Error)
        requires
            seen.sheets.wf(),
        ensures
            r@ == explained(
                error@,
                tables_of(
                    self.place@,
                    self.options@,
                    tree::seen(seen.children@),
                    seen.sheets@,
                ),
            ),
    {
        if let Error::Federated(message) = &error {
            if text::holds(message, "syntax error") || text::holds(message, "Parser Error") {
                let names = self.awkward_names(seen);
                if names.len() > 0 {
                    let ghost all = text::views(names@);
                    let mut quoted: Vec<String> = Vec::new();
                    let mut i: usize = 0;
                    while i < names.len()
                        invariant
                            i <= names.len(),
                            all == text::views(names@),
                            quoted.len() == i,
                            forall|j: int|
                                0 <= j < i ==> (#[trigger] quoted@[j])@ == "\""@ + all[j] + "\""@,
                        decreases names.len() - i,
                    {
                        quoted.push("\"".to_owned().concat(&names[i]).concat("\""));
                        i = i + 1;
                    }
                    assert(text::views(quoted@) == in_quotes(all));
                    return Error::Federated(
                        message.clone().concat(
                            "\n\nThis source has tables whose names SQL reads as something other than a name, so they must be quoted: ",
                        ).concat(&text::joined(&quoted, ", ")).concat(
                            ". Double-clicking in the explorer writes them for you.",
                        ),
                    );
                }
            }
        }
        error
    }

    /// The one catalogue of this source: a folder under its own name, a container under
    /// what tells it from another.
    pub fn list_databases(&self) -> (r: Vec<String>)
        ensures
            text::views(r@) == seq![
                match self.place@ {
                    PlaceView::Local { root, single, windows } => model::catalogue(
                        if single {
                            SourceKind::File
                        } else {
                            SourceKind::Folder
                        },
                        root,
                        windows,
                    ),
                    PlaceView::Azure { catalogue, .. } => catalogue,
                },
            ],
    {
        let name = match &self.place {
            Place::Local { root, single, windows } => model::catalogue_name(
                if *single {
                    SourceKind::File
                } else {
                    SourceKind::Folder
                },
                root,
                *windows,
            ),
            Place::Azure { access, .. } => access.catalogue.clone(),
        };
        let mut out: Vec<String> = Vec::new();
        let ghost shown = name@;
        out.push(name);
        assert(text::views(out@) == seq![shown]);
        out
    }

    /// The tables of this source, as the explorer shows them: each is a view, which says
    /// that it is a file and not something to write to.
    pub fn list_tables(&self, seen: &Seen<'_>) -> (r: Vec<TableInfo>)
        requires
            seen.sheets.wf(),
        ensures
            ({
                let sets = tables_of(
                    self.place@,
                    self.options@,
                    tree::seen(seen.children@),
                    seen.sheets@,
                );
                &&& r@.len() == sets.len()
                &&& forall|i: int|
                    0 <= i < r@.len() ==> (#[trigger] r@[i]).schema@ == ROOT_SCHEMA@
                        && r@[i].name@ == sets[i].name && r@[i].kind == TableKind::View
            }),
    {
        let sets = self.sets(seen);
        let ghost all = files::sets_view(sets@);
        let mut out: Vec<TableInfo> = Vec::new();
        let mut i: usize = 0;
        while i < sets.len()
            invariant
                i <= sets.len(),
                all == files::sets_view(sets@),
                out.len() == i,
                forall|j: int|
                    0 <= j < i ==> (#[trigger] out@[j]).schema@ == ROOT_SCHEMA@ && out@[j].name@
                        == all[j].name && out@[j].kind == TableKind::View,
            decreases sets.len() - i,
        {
            out.push(
                TableInfo {
                    schema: ROOT_SCHEMA.to_owned(),
                    name: sets[i].name.clone(),
                    kind: TableKind::View,
                },
            );
            i = i + 1;
        }
        out
    }

    /// The table of that name.
    pub fn find_set(&self, schema: &str, name: &str, seen: &Seen<'_>) -> (r: Result<
        DataSet,
        Error,
    >)
        requires
            seen.sheets.wf(),
        ensures
            ({
                let sets = tables_of(
                    self.place@,
                    self.options@,
                    tree::seen(seen.children@),
                    seen.sheets@,
                );
                match r {
                    Ok(set) => schema@ == ROOT_SCHEMA@ && first_named(sets, name@, 0) == Some(
                        set@,
                    ),
                    Err(e) => (schema@ != ROOT_SCHEMA@ || first_named(sets, name@, 0) is None)
                        && e@ == ErrorView::BadRequest(
                        "no table `"@ + schema@ + "."@ + name@ + "` in this source"@,
                    ),
                }
            }),
    {
        let sets = self.sets(seen);
        let ghost all = files::sets_view(sets@);
        if text::same(schema, ROOT_SCHEMA) {
            let mut i: usize = 0;
            while i < sets.len()
                invariant
                    i <= sets.len(),
                    all == files::sets_view(sets@),
                    all == tables_of(
                        self.place@,
                        self.options@,
                        tree::seen(seen.children@),
                        seen.sheets@,
                    ),
                    schema@ == ROOT_SCHEMA@,
                    first_named(all, name@, 0) == first_named(all, name@, i as nat),
                decreases sets.len() - i,
            {
                assert(all[i as int] == sets@[i as int]@);
                if text::same(&sets[i].name, name) {
                    return Ok(sets[i].clone());
                }
                i = i + 1;
            }
        }
        Err(
            Error::BadRequest(
                "no table `".to_owned().concat(schema).concat(".").concat(name).concat(
                    "` in this source",
                ),
            ),
        )
    }
}

/// The first table of that name.
pub open spec fn first_named(sets: Seq<DataSetView>, name: Seq<char>, from: nat) -> Option<
    DataSetView,
>
    decreases sets.len() - from,
{
    if from >= sets.len() {
        None
    } else if sets[from as int].name == name {
        Some(sets[from as int])
    } else {
        first_named(sets, name, from + 1)
    }
}

fn clone_sets(sets: &Vec<DataSet>) -> (r: Vec<DataSet>)
    ensures
        files::sets_view(r@) == files::sets_view(sets@),
{
    let mut out: Vec<DataSet> = Vec::new();
    let mut i: usize = 0;
    while i < sets.len()
        invariant
            i <= sets.len(),
            out.len() == i,
            forall|j: int| 0 <= j < i ==> (#[trigger] out@[j])@ == sets@[j]@,
        decreases sets.len() - i,
    {
        out.push(sets[i].clone());
        i = i + 1;
    }
    assert(files::sets_view(out@) == files::sets_view(sets@));
    out
}

pub open spec fn needed(needs: Option<String>) -> Seq<Seq<char>> {
    match needs {
        Some(extension) => seq![extension@],
        None => Seq::empty(),
    }
}

impl Recipe {
    /// What opening the session takes.
    pub fn open(&self) -> (r: Vec<Order>)
        ensures
            session::orders_view(r@) == (match *self {
                Recipe::Confined(sandbox, needs) => session::opening(
                    Some(ROOT_SCHEMA@),
                    sandbox@,
                    needed(needs),
                    Seq::empty(),
                    None,
                ),
                Recipe::Azure(access, needs) => session::azure_opening(
                    Some(ROOT_SCHEMA@),
                    access.token@,
                    access.account@,
                    needed(needs),
                ),
            }),
    {
        let needs = match self {
            Recipe::Confined(_, needs) => needs,
            Recipe::Azure(_, needs) => needs,
        };
        let mut extensions: Vec<String> = Vec::new();
        if let Some(extension) = needs {
            extensions.push(extension.clone());
        }
        assert(text::views(extensions@) == needed(*needs));
        match self {
            Recipe::Confined(sandbox, _) => session::open_duckdb_needing(
                sandbox,
                Some(ROOT_SCHEMA),
                &extensions,
            ),
            Recipe::Azure(access, _) => session::open_duckdb_azure(
                access,
                Some(ROOT_SCHEMA),
                &extensions,
            ),
        }
    }
}

// ----------------------------------------------------------------------- defining

/// What defines a table as a view, or nothing for a spreadsheet.
pub open spec fn view_sql(set: DataSetView, options: FileOptionsView) -> Option<Seq<char>> {
    match files::select(set, options) {
        Some(query) => Some(
            "CREATE VIEW "@ + quote::identifier(ROOT_SCHEMA@) + "."@ + quote::identifier(set.name)
                + " AS "@ + query + ";"@,
        ),
        None => None,
    }
}

/// What defines a table as a view. A spreadsheet has no function that reads it, so it
/// becomes a table filled from what was read; see [`Combining`].
pub fn define(set: &DataSet, options: &FileOptions) -> (r: Option<String>)
    ensures
        text::opt(r) == view_sql(set@, options@),
{
    match set.query(options) {
        Some(query) => Some(
            "CREATE VIEW ".to_owned().concat(&quote::quote_identifier(ROOT_SCHEMA)).concat(
                ".",
            ).concat(&quote::quote_identifier(&set.name)).concat(" AS ").concat(&query).concat(";"),
        ),
        None => None,
    }
}

/// What to say when a table could not be defined: the files that are at fault come
/// first.
pub fn cannot_define(set: &DataSet, why: &str) -> (e: Error)
    ensures
        e@ == ErrorView::Federated(files::called(set@) + ": "@ + why@),
{
    Error::Federated(set.label().concat(": ").concat(why))
}

pub open spec fn file_column_view() -> ColumnMetaView {
    ColumnMetaView {
        name: FILE_COLUMN@,
        engine_type: "varchar"@,
        logical: LogicalType::Text,
    }
}

/// What the column that names the file looks like where no expression says so.
pub fn file_column() -> (r: ColumnMeta)
    ensures
        r@ == file_column_view(),
{
    ColumnMeta {
        name: FILE_COLUMN.to_owned(),
        engine_type: "varchar".to_owned(),
        logical: LogicalType::Text,
    }
}

pub open spec fn column_names(columns: Seq<ColumnMetaView>) -> Seq<Seq<char>> {
    Seq::new(columns.len(), |i: int| columns[i].name)
}

/// Whether two tables have columns of the same names, in the same order.
pub fn same_columns(a: &Vec<ColumnMeta>, b: &Vec<ColumnMeta>) -> (r: bool)
    ensures
        r == (column_names(model::columns_view(a@)) == column_names(model::columns_view(b@))),
{
    let ghost x = column_names(model::columns_view(a@));
    let ghost y = column_names(model::columns_view(b@));
    if a.len() != b.len() {
        assert(x.len() != y.len());
        return false;
    }
    let mut i: usize = 0;
    while i < a.len()
        invariant
            i <= a.len(),
            a.len() == b.len(),
            x == column_names(model::columns_view(a@)),
            y == column_names(model::columns_view(b@)),
            forall|j: int| 0 <= j < i ==> (#[trigger] x[j]) == y[j],
        decreases a.len() - i,
    {
        if !text::same(&a[i].name, &b[i].name) {
            assert(x[i as int] != y[i as int]);
            return false;
        }
        i = i + 1;
    }
    assert(x =~= y);
    true
}

pub fn names_of(columns: &Vec<ColumnMeta>) -> (r: String)
    ensures
        r@ == text::join(column_names(model::columns_view(columns@)), ", "@),
{
    let mut names: Vec<String> = Vec::new();
    let mut i: usize = 0;
    while i < columns.len()
        invariant
            i <= columns.len(),
            names.len() == i,
            forall|j: int| 0 <= j < i ==> (#[trigger] names@[j])@ == columns@[j].name@,
        decreases columns.len() - i,
    {
        names.push(columns[i].name.clone());
        i = i + 1;
    }
    assert(text::views(names@) == column_names(model::columns_view(columns@)));
    text::joined(&names, ", ")
}

/// The spreadsheets of one table, put together as they are read. They have to agree on
/// their columns.
pub struct Combining {
    pub columns: Option<Vec<ColumnMeta>>,
    pub rows: Vec<Vec<Option<String>>>,
}

pub open spec fn known_columns(columns: Option<Vec<ColumnMeta>>) -> Option<Seq<ColumnMetaView>> {
    match columns {
        Some(columns) => Some(model::columns_view(columns@)),
        None => None,
    }
}

/// Those rows, each with the file they came from where that is asked for.
pub open spec fn stamped(
    rows: Seq<Seq<Option<Seq<char>>>>,
    set: DataSetView,
    file: Seq<char>,
) -> Seq<Seq<Option<Seq<char>>>> {
    Seq::new(
        rows.len(),
        |i: int|
            if set.tagged {
                rows[i].push(Some(files::stem_of(files::filename(file))))
            } else {
                rows[i]
            },
    )
}

pub open spec fn disagreement(
    set: DataSetView,
    file: Seq<char>,
    columns: Seq<ColumnMetaView>,
    first: Seq<ColumnMetaView>,
) -> Seq<char> {
    file + ": its columns are "@ + text::join(column_names(columns), ", "@)
        + " where the other files in "@ + set.name + " have "@ + text::join(
        column_names(first),
        ", "@,
    ) + ". Every file in one folder must have the same columns."@
}

impl Combining {
    pub fn new() -> (r: Combining)
        ensures
            r.columns is None,
            r.rows@.len() == 0,
    {
        Combining { columns: None, rows: Vec::new() }
    }

    /// Take in what was read of one file.
    pub fn add(&mut self, set: &DataSet, file: &str, read: Sheet) -> (r: Result<(), Error>)
        ensures
            ({
                let columns = model::columns_view(read.columns@);
                let first = match known_columns(old(self).columns) {
                    Some(first) => first,
                    None => columns,
                };
                match r {
                    Ok(_) => {
                        &&& column_names(first) == column_names(columns)
                        &&& known_columns(final(self).columns) == Some(first)
                        &&& model::rows_view(final(self).rows@) == model::rows_view(
                            old(self).rows@,
                        ) + stamped(model::rows_view(read.rows@), set@, file@)
                    },
                    Err(e) => {
                        &&& column_names(first) != column_names(columns)
                        &&& e@ == ErrorView::Federated(
                            disagreement(set@, file@, columns, first),
                        )
                        &&& *final(self) == *old(self)
                    },
                }
            }),
    {
        let Sheet { columns, rows } = read;
        if let Some(first) = &self.columns {
            if !same_columns(first, &columns) {
                return Err(
                    Error::Federated(
                        file.to_owned().concat(": its columns are ").concat(
                            &names_of(&columns),
                        ).concat(" where the other files in ").concat(&set.name).concat(
                            " have ",
                        ).concat(&names_of(first)).concat(
                            ". Every file in one folder must have the same columns.",
                        ),
                    ),
                );
            }
        } else {
            self.columns = Some(columns);
        }
        let origin = files::stem(&files::filename_of(file));
        let ghost start = model::rows_view(self.rows@);
        let ghost more = stamped(model::rows_view(rows@), set@, file@);
        let ghost all = rows@;
        let ghost firsts = known_columns(self.columns);
        assert(start + more.take(0) == start);
        for found in iter: rows.into_iter()
            invariant
                iter.seq() == all,
                more == stamped(model::rows_view(all), set@, file@),
                origin@ == files::stem_of(files::filename(file@)),
                model::rows_view(self.rows@) == start + more.take(iter.index()),
                known_columns(self.columns) == firsts,
        {
            let ghost n = iter.index();
            let ghost before = model::rows_view(self.rows@);
            let mut row = found;
            assert(row == all[n]);
            let ghost cells = model::rows_view(all)[n];
            if set.tagged {
                row.push(Some(origin.clone()));
            }
            let ghost shown = Seq::new(row@.len(), |j: int| text::opt(row@[j]));
            assert(shown =~= more[n]);
            self.rows.push(row);
            assert(model::rows_view(self.rows@) =~= before.push(shown));
            assert(more.take(n + 1) == more.take(n).push(more[n]));
        }
        assert(more.take(all.len() as int) == more);
        Ok(())
    }

    /// The table, complete.
    pub fn finish(self, set: &DataSet) -> (r: Materialised)
        ensures
            r.alias@ == set@.name,
            model::columns_view(r.columns@) == ({
                let columns = match known_columns(self.columns) {
                    Some(columns) => columns,
                    None => Seq::empty(),
                };
                if set@.tagged {
                    columns.push(file_column_view())
                } else {
                    columns
                }
            }),
            r.rows@ == self.rows@,
    {
        let Combining { columns, rows } = self;
        let mut columns = match columns {
            Some(columns) => columns,
            None => Vec::new(),
        };
        let ghost before = model::columns_view(columns@);
        assert(before =~= (match known_columns(self.columns) {
            Some(columns) => columns,
            None => Seq::empty(),
        }));
        if set.tagged {
            columns.push(file_column());
            assert(model::columns_view(columns@) =~= before.push(file_column_view()));
        }
        Materialised { alias: set.name.clone(), columns, rows }
    }
}

// --------------------------------------------------------------------- describing

/// What asks for the columns of a table, or nothing for a spreadsheet.
pub fn describe(set: &DataSet, options: &FileOptions) -> (r: Option<String>)
    ensures
        text::opt(r) == (match files::select(set@, options@) {
            Some(query) => Some("DESCRIBE "@ + query),
            None => None,
        }),
{
    match set.query(options) {
        Some(query) => Some("DESCRIBE ".to_owned().concat(&query)),
        None => None,
    }
}

/// The file a spreadsheet is described by. The first is enough: the rest have to match
/// it.
pub fn described_by(set: &DataSet) -> (r: Result<String, Error>)
    ensures
        match r {
            Ok(file) => set@.files.len() > 0 && file@ == set@.files[0],
            Err(e) => set@.files.len() == 0 && e@ == ErrorView::BadRequest(
                "`"@ + set@.name + "` has no files"@,
            ),
        },
{
    if set.files.len() == 0 {
        Err(Error::BadRequest("`".to_owned().concat(&set.name).concat("` has no files")))
    } else {
        Ok(set.files[0].clone())
    }
}

/// A column of a spreadsheet, at that place.
pub open spec fn is_sheet_column(info: ColumnInfo, column: ColumnMetaView, ordinal: int) -> bool {
    &&& info.name@ == column.name
    &&& info.ordinal == ordinal
    &&& info.data_type@ == excel::logical_word(column.logical)
    &&& info.nullable
    &&& !info.is_primary_key
    &&& info.default is None
}

/// The columns of a spreadsheet, from what was read of it.
pub fn describe_sheet(set: &DataSet, columns: Vec<ColumnMeta>) -> (r: Vec<ColumnInfo>)
    requires
        columns@.len() < i32::MAX - 1,
    ensures
        ({
            let all = if set@.tagged {
                model::columns_view(columns@).push(file_column_view())
            } else {
                model::columns_view(columns@)
            };
            &&& r@.len() == all.len()
            &&& forall|i: int|
                0 <= i < r@.len() ==> is_sheet_column(#[trigger] r@[i], all[i], i + 1)
        }),
{
    let mut columns = columns;
    let ghost before = model::columns_view(columns@);
    if set.tagged {
        columns.push(file_column());
        assert(model::columns_view(columns@) =~= before.push(file_column_view()));
    }
    let ghost all = model::columns_view(columns@);
    let mut out: Vec<ColumnInfo> = Vec::new();
    let mut i: usize = 0;
    while i < columns.len()
        invariant
            i <= columns.len(),
            columns@.len() < i32::MAX,
            all == model::columns_view(columns@),
            out.len() == i,
            forall|j: int|
                0 <= j < i ==> is_sheet_column(#[trigger] out@[j], all[j], j + 1),
        decreases columns.len() - i,
    {
        out.push(
            ColumnInfo {
                name: columns[i].name.clone(),
                ordinal: i as i32 + 1,
                data_type: excel::logical_word_of(columns[i].logical).to_owned(),
                nullable: true,
                is_primary_key: false,
                default: None,
            },
        );
        i = i + 1;
    }
    out
}

/// A query never refers to a table that was not defined for it: every table whose name
/// occurs in it is among those that are.
pub proof fn law_no_table_a_query_names_is_left_out(sets: Seq<DataSetView>, sql: Seq<char>, i: int)
    requires
        0 <= i < sets.len(),
    ensures
        mentioned(sets, sql).contains(sets[i]) <== text::contains(
            text::lowercase(sql),
            text::lowercase(sets[i].name),
        ),
    decreases sets.len(),
{
    let before = mentioned(sets.drop_last(), sql);
    let all = mentioned(sets, sql);
    if i == sets.len() - 1 {
        if text::contains(text::lowercase(sql), text::lowercase(sets[i].name)) {
            assert(all[all.len() - 1] == sets[i]);
        }
    } else {
        law_no_table_a_query_names_is_left_out(sets.drop_last(), sql, i);
        assert(sets.drop_last()[i] == sets[i]);
        if before.contains(sets[i]) {
            let k = choose|k: int| 0 <= k < before.len() && before[k] == sets[i];
            assert(all[k] == sets[i]);
        }
    }
}

/// A table is defined under its own name in the schema every table lands in, as the very
/// statement that reads it; what no statement reads is not defined.
pub proof fn law_a_table_is_defined_as_what_reads_it(set: DataSetView, options: FileOptionsView)
    ensures
        match files::select(set, options) {
            Some(query) => view_sql(set, options) == Some(
                "CREATE VIEW "@ + quote::identifier("public"@) + "."@ + quote::identifier(set.name)
                    + " AS "@ + query + ";"@,
            ),
            None => view_sql(set, options) is None,
        },
{
}

/// A file belongs to the folder its path names: everything before the last slash, and the
/// root where there is none.
pub proof fn law_a_file_is_in_the_folder_before_it(folder: Seq<char>, name: Seq<char>)
    requires
        !name.contains('/'),
    ensures
        folder_of(name) == Seq::<char>::empty(),
        folder_of(folder + seq!['/'] + name) == folder,
{
    text::law_a_cut_takes_one_character(name, '/');
    let s = folder + seq!['/'] + name;
    let f = text::other_than('/');
    assert forall|i: int| s.len() - name.len() <= i < s.len() implies f(#[trigger] s[i]) by {
        assert(s[i] == name[i - folder.len() - 1]);
        assert(name.contains(name[i - folder.len() - 1]));
    }
    text::lemma_run_back_is(s, f, name.len() as int);
    assert(s.take(folder.len() as int) == folder);
}

/// A file is in one of those directories, and in the one of its folder.
pub open spec fn is_filed(
    directories: Seq<DirectoryView>,
    folder: Seq<char>,
    address: Seq<char>,
) -> bool {
    exists|d: int|
        0 <= d < directories.len() && (#[trigger] directories[d]).relative == folder
            && directories[d].files.contains(address)
}

/// Where a folder first stands among those directories, or their number.
proof fn folder_at(directories: Seq<DirectoryView>, folder: Seq<char>) -> (at: int)
    ensures
        0 <= at <= directories.len(),
        forall|j: int| 0 <= j < at ==> (#[trigger] directories[j]).relative != folder,
        at < directories.len() ==> directories[at].relative == folder,
    decreases directories.len(),
{
    if directories.len() == 0 {
        0
    } else if directories[0].relative == folder {
        0
    } else {
        let at = folder_at(directories.skip(1), folder);
        assert forall|j: int| 0 <= j < at + 1 implies (#[trigger] directories[j]).relative
            != folder by {
            if j > 0 {
                assert(directories.skip(1)[j - 1] == directories[j]);
            }
        }
        at + 1
    }
}

/// Filing one more leaves every file where it was, puts that one in its folder, and makes
/// no folder twice.
proof fn lemma_filing(
    directories: Seq<DirectoryView>,
    folder: Seq<char>,
    address: Seq<char>,
)
    requires
        forall|a: int, b: int|
            0 <= a < b < directories.len() ==> (#[trigger] directories[a]).relative != (
            #[trigger] directories[b]).relative,
    ensures
        is_filed(filed(directories, folder, address), folder, address),
        forall|f: Seq<char>, x: Seq<char>|
            is_filed(directories, f, x) ==> #[trigger] is_filed(
                filed(directories, folder, address),
                f,
                x,
            ),
        forall|f: Seq<char>, x: Seq<char>| #[trigger]
            is_filed(filed(directories, folder, address), f, x) ==> is_filed(directories, f, x) || (
            f == folder && x == address),
        forall|a: int, b: int|
            0 <= a < b < filed(directories, folder, address).len() ==> (#[trigger] filed(
                directories,
                folder,
                address,
            )[a]).relative != (#[trigger] filed(directories, folder, address)[b]).relative,
{
    let at = folder_at(directories, folder);
    lemma_filed(directories, folder, address, at);
    let out = filed(directories, folder, address);
    assert(out[at].relative == folder);
    let last = out[at].files.len() - 1;
    assert(out[at].files[last] == address);
    assert(is_filed(out, folder, address));
    assert forall|f: Seq<char>, x: Seq<char>| is_filed(directories, f, x) implies #[trigger] is_filed(
        out,
        f,
        x,
    ) by {
        let d = choose|d: int|
            0 <= d < directories.len() && (#[trigger] directories[d]).relative == f
                && directories[d].files.contains(x);
        let k = directories[d].files.index_of(x);
        assert(out[d].files[k] == x);
        assert(out[d].relative == f);
    }
    assert forall|f: Seq<char>, x: Seq<char>| #[trigger] is_filed(out, f, x) implies is_filed(
        directories,
        f,
        x,
    ) || (f == folder && x == address) by {
        let d = choose|d: int|
            0 <= d < out.len() && (#[trigger] out[d]).relative == f && out[d].files.contains(x);
        let k = out[d].files.index_of(x);
        if d < directories.len() && (d != at || k < directories[at].files.len()) {
            assert(directories[d].files[k] == x);
            assert(directories[d].relative == f);
        }
    }
}

/// A listing is filed by folder: every file is in its own, nothing else is in any, and no
/// folder is there twice.
pub proof fn law_every_file_is_filed_in_its_folder(listing: Seq<(Seq<char>, Seq<char>)>)
    ensures
        forall|i: int|
            0 <= i < listing.len() ==> is_filed(
                filed_all(listing),
                folder_of((#[trigger] listing[i]).0),
                listing[i].1,
            ),
        forall|f: Seq<char>, x: Seq<char>| #[trigger]
            is_filed(filed_all(listing), f, x) ==> exists|i: int|
                0 <= i < listing.len() && folder_of((#[trigger] listing[i]).0) == f && listing[i].1
                    == x,
        forall|a: int, b: int|
            0 <= a < b < filed_all(listing).len() ==> (#[trigger] filed_all(listing)[a]).relative
                != (#[trigger] filed_all(listing)[b]).relative,
    decreases listing.len(),
{
    if listing.len() > 0 {
        let before = listing.drop_last();
        law_every_file_is_filed_in_its_folder(before);
        let folder = folder_of(listing.last().0);
        let address = listing.last().1;
        lemma_filing(filed_all(before), folder, address);
        let out = filed_all(listing);
        assert forall|i: int| 0 <= i < listing.len() implies is_filed(
            out,
            folder_of((#[trigger] listing[i]).0),
            listing[i].1,
        ) by {
            if i < before.len() {
                assert(before[i] == listing[i]);
                assert(is_filed(filed_all(before), folder_of(before[i].0), before[i].1));
            }
        }
        assert forall|f: Seq<char>, x: Seq<char>| #[trigger] is_filed(out, f, x) implies exists|
            i: int,
        |
            0 <= i < listing.len() && folder_of((#[trigger] listing[i]).0) == f && listing[i].1
                == x by {
            if is_filed(filed_all(before), f, x) {
                let i = choose|i: int|
                    0 <= i < before.len() && folder_of((#[trigger] before[i]).0) == f
                        && before[i].1 == x;
                assert(listing[i] == before[i]);
            } else {
                assert(listing[listing.len() - 1] == listing.last());
            }
        }
    }
}

/// What is excluded is left out of a listing and everything else stays.
pub proof fn law_only_what_is_excluded_is_left_out(
    listing: Seq<(Seq<char>, Seq<char>)>,
    excluded: Seq<Seq<char>>,
    entry: (Seq<char>, Seq<char>),
)
    ensures
        included(listing, excluded).contains(entry) <==> listing.contains(entry)
            && !files::left_out(excluded, entry.0),
        excluded.len() == 0 ==> included(listing, excluded) == listing,
    decreases listing.len(),
{
    if listing.len() > 0 {
        let before = listing.drop_last();
        law_only_what_is_excluded_is_left_out(before, excluded, entry);
        let kept = included(before, excluded);
        let out = included(listing, excluded);
        assert(listing == before.push(listing.last()));
        if kept.contains(entry) {
            let k = kept.index_of(entry);
            assert(out[k] == entry);
        }
        if before.contains(entry) {
            let k = before.index_of(entry);
            assert(listing[k] == entry);
        }
        if listing.contains(entry) && !before.contains(entry) {
            let k = listing.index_of(entry);
            if k < before.len() {
                assert(before[k] == entry);
            }
            assert(entry == listing.last());
            if !files::left_out(excluded, entry.0) {
                assert(out[out.len() - 1] == entry);
            }
        }
        if out.contains(entry) && !kept.contains(entry) {
            let k = out.index_of(entry);
            if k < kept.len() {
                assert(kept[k] == entry);
            }
            assert(listing[listing.len() - 1] == entry);
        }
    }
}

/// Only the tables a query names are prepared for it.
pub proof fn law_only_what_a_query_names_is_prepared(
    sets: Seq<DataSetView>,
    sql: Seq<char>,
    set: DataSetView,
)
    ensures
        mentioned(sets, sql).contains(set) ==> sets.contains(set) && text::contains(
            text::lowercase(sql),
            text::lowercase(set.name),
        ),
    decreases sets.len(),
{
    if sets.len() > 0 {
        let before = sets.drop_last();
        law_only_what_a_query_names_is_prepared(before, sql, set);
        let kept = mentioned(before, sql);
        let out = mentioned(sets, sql);
        if out.contains(set) {
            let k = out.index_of(set);
            if k < kept.len() {
                assert(kept[k] == set);
                let j = before.index_of(set);
                assert(sets[j] == set);
            } else {
                assert(sets[sets.len() - 1] == set);
            }
        }
    }
}

/// A name that must be quoted is pointed out exactly where a table has it, and once.
pub proof fn law_every_awkward_name_is_pointed_out(sets: Seq<DataSetView>, name: Seq<char>)
    ensures
        awkward(sets).contains(name) <==> !is_bare(name) && exists|i: int|
            0 <= i < sets.len() && (#[trigger] sets[i]).name == name,
        awkward(sets).no_duplicates(),
    decreases sets.len(),
{
    if sets.len() > 0 {
        let before = sets.drop_last();
        law_every_awkward_name_is_pointed_out(before, name);
        law_every_awkward_name_is_pointed_out(before, sets.last().name);
        let kept = awkward(before);
        let out = awkward(sets);
        if kept.contains(name) {
            let k = kept.index_of(name);
            assert(out[k] == name);
            let i = choose|i: int| 0 <= i < before.len() && (#[trigger] before[i]).name == name;
            assert(sets[i].name == name);
        }
        if exists|i: int| 0 <= i < sets.len() && (#[trigger] sets[i]).name == name {
            let i = choose|i: int| 0 <= i < sets.len() && (#[trigger] sets[i]).name == name;
            if i < before.len() {
                assert(before[i].name == name);
            } else if !is_bare(name) && !kept.contains(name) {
                assert(out[out.len() - 1] == name);
            }
        }
        if out.contains(name) && !kept.contains(name) {
            let k = out.index_of(name);
            if k < kept.len() {
                assert(kept[k] == name);
            }
            assert(sets[sets.len() - 1].name == name);
        }
    }
}

/// The table a name means is the first that has it, and there is none only where no table
/// has it.
pub proof fn law_a_name_means_the_first_that_has_it(
    sets: Seq<DataSetView>,
    name: Seq<char>,
    from: nat,
)
    ensures
        match first_named(sets, name, from) {
            Some(set) => exists|i: int|
                {
                    &&& from <= i < sets.len()
                    &&& #[trigger] sets[i] == set
                    &&& set.name == name
                    &&& forall|j: int| from <= j < i ==> (#[trigger] sets[j]).name != name
                },
            None => forall|i: int| from <= i < sets.len() ==> (#[trigger] sets[i]).name != name,
        },
    decreases sets.len() - from,
{
    if from < sets.len() {
        if sets[from as int].name == name {
            assert(sets[from as int] == first_named(sets, name, from)->Some_0);
        } else {
            law_a_name_means_the_first_that_has_it(sets, name, from + 1);
        }
    }
}

/// A row of a sheet is kept cell for cell; in a folder it says which file it came from, in
/// one more cell at the end.
pub proof fn law_a_row_says_which_file_it_came_from(
    rows: Seq<Seq<Option<Seq<char>>>>,
    set: DataSetView,
    file: Seq<char>,
)
    ensures
        stamped(rows, set, file).len() == rows.len(),
        !set.tagged ==> stamped(rows, set, file) == rows,
        set.tagged ==> forall|i: int|
            0 <= i < rows.len() ==> {
                let row = #[trigger] stamped(rows, set, file)[i];
                &&& row.drop_last() == rows[i]
                &&& row.len() == rows[i].len() + 1
                &&& row.last() == Some(files::stem_of(files::filename(file)))
            },
{
    if set.tagged {
        assert forall|i: int| 0 <= i < rows.len() implies {
            let row = #[trigger] stamped(rows, set, file)[i];
            &&& row.drop_last() == rows[i]
            &&& row.len() == rows[i].len() + 1
            &&& row.last() == Some(files::stem_of(files::filename(file)))
        } by {
            assert(stamped(rows, set, file)[i].drop_last() == rows[i]);
        }
    } else {
        assert(stamped(rows, set, file) == rows);
    }
}

/// A source is refused exactly where its path is not what it says it is, or where nothing
/// says how to read it.
pub proof fn law_a_source_fits_its_path(
    config: SourceConfigView,
    path: Seq<char>,
    root: Seq<char>,
    is_file: bool,
    is_dir: bool,
    windows: bool,
)
    ensures
        config.kind is File ==> (misfit(config, path, root, is_file, is_dir, windows) is None
            <==> is_file && config.options.format_for(paths::extension(root, windows)) is Some),
        !(config.kind is File) ==> (misfit(config, path, root, is_file, is_dir, windows) is None
            <==> is_dir && config.options.format is Some),
{
}

/// A source is confined to its own file or folder, and one in storage to no file of this
/// machine.
pub proof fn law_a_source_is_confined_to_its_own(connection: &FilesConnection, r: Sandbox)
    requires
        call_ensures(FilesConnection::sandbox, (connection,), r),
    ensures
        match connection.place@ {
            PlaceView::Local { root, single, .. } => {
                &&& single ==> r@.files == seq![root] && r@.directories.len() == 0
                &&& !single ==> r@.directories == seq![root] && r@.files.len() == 0
            },
            PlaceView::Azure { .. } => r@.files.len() == 0 && r@.directories.len() == 0,
        },
{
}

} // verus!
