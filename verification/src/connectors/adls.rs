//! Azure storage as a source: a blob container, an ADLS Gen2 filesystem, or a Fabric
//! OneLake workspace.
//!
//! The container is listed, which says where the tables are and what they are called;
//! they are named with the rules a folder source uses. Everything after that is
//! [`FilesConnection`], because by then a file is only an address in a literal.

use crate::azure::storage::{self, Entry, EntryView, Location, LocationView};
use crate::connectors::files;
use crate::connectors::folder::{self, FilesConnection, PlaceView};
use crate::error::{Error, ErrorView};
use crate::federation::session::AzureAccess;
use crate::model::{AuthConfig, AuthConfigView, Dialect, FileFormat, SourceConfig, SourceConfigView};
use crate::paths;
use crate::text;
use vstd::prelude::*;
use vstd::string::*;

verus! {

/// As many files as one source will name as tables. Nothing is downloaded, so this is
/// what keeps the explorer usable.
pub const MAX_FILES: usize = 5_000;

/// Whether a source of that format reads that file. A Delta table is known by its log:
/// the files inside it are the log's business.
pub open spec fn kept(path: Seq<char>, format: FileFormat) -> bool {
    if format is Delta {
        files::before_log(path) is Some
    } else {
        match paths::extension(path, false) {
            Some(extension) => format.extension_list().contains(text::ascii_lower(extension)),
            None => false,
        }
    }
}

pub fn keeps(path: &str, format: FileFormat) -> (r: bool)
    ensures
        r == kept(path@, format),
{
    if format.is_delta() {
        return files::table_of(path).is_some();
    }
    match paths::extension_of(path, false) {
        Some(extension) => format.has(&text::to_ascii_lower(&extension)),
        None => false,
    }
}

/// The part of a listed path below the source's prefix, if it is below it. The prefix is a
/// directory, so a path that only begins with its letters is beside it.
pub open spec fn relative(prefix: Seq<char>, path: Seq<char>) -> Option<Seq<char>> {
    if prefix.len() == 0 {
        Some(path)
    } else {
        match text::after_prefix(path, prefix) {
            Some(rest) => {
                let below = text::strip_start(rest, '/');
                if below.len() > 0 && (prefix.last() == '/' || below.len() < rest.len()) {
                    Some(below)
                } else {
                    None
                }
            },
            None => None,
        }
    }
}

/// The part of a listed path below the source's prefix.
///
/// The service answers paths relative to the filesystem; the tables are named from the
/// prefix down.
pub fn below(prefix: &str, path: &str) -> (r: Option<String>)
    ensures
        text::opt(r) == relative(prefix@, path@),
{
    if prefix.is_empty() {
        return Some(path.to_owned());
    }
    match text::strip_prefix(path, prefix) {
        Some(rest) => {
            let below = text::stripped_start(&rest, '/');
            let apart = text::ends(prefix, "/") || text::begins(&rest, "/");
            proof {
                reveal_strlit("/");
                text::lemma_run(rest@, text::exactly('/'));
                if text::starts_with(rest@, "/"@) {
                    assert(rest@.take(1)[0] == '/');
                }
                if rest@.len() > 0 && rest@[0] == '/' {
                    assert(rest@.take(1) =~= "/"@);
                }
                if text::ends_with(prefix@, "/"@) {
                    assert(prefix@.skip(prefix@.len() - 1)[0] == '/');
                }
                if prefix@.last() == '/' {
                    assert(prefix@.skip(prefix@.len() - 1) =~= "/"@);
                }
            }
            if below.as_str().is_empty() || !apart {
                None
            } else {
                Some(below)
            }
        },
        None => None,
    }
}

/// The URL a file is read at. `path` is as the listing gave it, prefix included.
pub fn address(location: &Location, path: &str) -> (r: String)
    ensures
        r@ == storage::url(location@, path@),
{
    "abfss://".to_owned().concat(&location.filesystem).concat("@").concat(&location.host).concat(
        "/",
    ).concat(path)
}

/// What comes before the first dot of a host.
pub open spec fn account(host: Seq<char>) -> Seq<char> {
    match text::split_once(host, '.') {
        Some((account, _)) => account,
        None => host,
    }
}

/// The storage account a host names.
pub fn account_of(host: &str) -> (r: String)
    ensures
        r@ == account(host@),
{
    match text::split_first(host, '.') {
        Some((account, _)) => account,
        None => host.to_owned(),
    }
}

/// The last of those that is not empty.
pub open spec fn deepest(segments: Seq<Seq<char>>) -> Option<Seq<char>>
    decreases segments.len(),
{
    if segments.len() == 0 {
        None
    } else if segments.last().len() > 0 {
        Some(segments.last())
    } else {
        deepest(segments.drop_last())
    }
}

pub open spec fn catalogue(location: LocationView) -> Seq<char> {
    match deepest(text::split(location.prefix, '/')) {
        Some(segment) => segment,
        None => location.filesystem,
    }
}

/// What the explorer shows where a server shows a database: the deepest thing named.
pub fn catalogue_of(location: &Location) -> (r: String)
    ensures
        r@ == catalogue(location@),
{
    let segments = text::split_all(&location.prefix, '/');
    let ghost all = text::views(segments@);
    let mut n: usize = segments.len();
    assert(all.take(n as int) == all);
    while n > 0
        invariant
            n <= segments.len(),
            all == text::views(segments@),
            all == text::split(location.prefix@, '/'),
            deepest(all) == deepest(all.take(n as int)),
        decreases n,
    {
        assert(all.take(n as int).last() == segments@[n as int - 1]@);
        assert(all.take(n as int).drop_last() == all.take(n as int - 1));
        if !segments[n - 1].as_str().is_empty() {
            return segments[n - 1].clone();
        }
        n = n - 1;
    }
    location.filesystem.clone()
}

/// What has to be settled before a container is listed.
#[derive(Debug)]
pub struct Ready {
    pub location: Location,
    pub format: FileFormat,
    pub token: String,
}

#[verifier::ext_equal]
pub struct ReadyView {
    pub location: LocationView,
    pub format: FileFormat,
    pub token: Seq<char>,
}

impl View for Ready {
    type V = ReadyView;

    open spec fn view(&self) -> ReadyView {
        ReadyView { location: self.location@, format: self.format, token: self.token@ }
    }
}

/// Where a source points, what it reads and with what token, or why it cannot.
pub open spec fn readiness(config: SourceConfigView) -> Result<ReadyView, ErrorView> {
    match storage::location_of(config.host, config.path) {
        Err(why) => Err(ErrorView::BadRequest(why)),
        Ok(location) => match config.options.format {
            None => Err(
                ErrorView::BadRequest(
                    "source `"@ + config.id
                        + "` reads a folder in Azure storage and must say which file type it holds (csv, parquet, json, json_lines or delta)."@,
                ),
            ),
            Some(format) => if format is Excel {
                Err(
                    ErrorView::Unsupported(
                        "a spreadsheet in Azure storage cannot be read yet: alkyon reads Excel with calamine, in this process and from a local file, rather than with DuckDB. Every other format is read where it lies."@,
                    ),
                )
            } else {
                match config.auth {
                    AuthConfigView::AadToken { token } => Ok(
                        ReadyView { location, format, token },
                    ),
                    _ => Err(
                        ErrorView::Unsupported(
                            "an Azure storage source is reached with a Microsoft Entra sign-in"@,
                        ),
                    ),
                }
            },
        },
    }
}

/// Those of the listed files that are read, each by its path below the prefix and its
/// address.
pub open spec fn wanted(
    listed: Seq<EntryView>,
    location: LocationView,
    format: FileFormat,
) -> Seq<(Seq<char>, Seq<char>)>
    decreases listed.len(),
{
    if listed.len() == 0 {
        Seq::empty()
    } else {
        let before = wanted(listed.drop_last(), location, format);
        match relative(location.prefix, listed.last().path) {
            Some(rest) => if kept(rest, format) {
                before.push((rest, storage::url(location, listed.last().path)))
            } else {
                before
            },
            None => before,
        }
    }
}

fn pick(listed: &Vec<Entry>, location: &Location, format: FileFormat) -> (r: Vec<(String, String)>)
    ensures
        files::pairs_view(r@) == wanted(storage::entry_views(listed@), location@, format),
{
    let ghost all = storage::entry_views(listed@);
    let mut out: Vec<(String, String)> = Vec::new();
    let mut i: usize = 0;
    assert(files::pairs_view(out@) == wanted(all.take(0), location@, format));
    while i < listed.len()
        invariant
            i <= listed.len(),
            all == storage::entry_views(listed@),
            files::pairs_view(out@) == wanted(all.take(i as int), location@, format),
        decreases listed.len() - i,
    {
        let ghost before = files::pairs_view(out@);
        assert(all.take(i as int + 1).drop_last() == all.take(i as int));
        assert(all.take(i as int + 1).last() == listed@[i as int]@);
        if let Some(rest) = below(&location.prefix, &listed[i].path) {
            if keeps(&rest, format) {
                let url = address(location, &listed[i].path);
                let ghost pair = (rest@, url@);
                out.push((rest, url));
                assert(files::pairs_view(out@) == before.push(pair));
            }
        }
        i = i + 1;
    }
    assert(all.take(i as int) == all);
    out
}

fn extension_names(format: FileFormat) -> (r: Vec<String>)
    ensures
        text::views(r@) == format.extension_list(),
{
    let list = format.extensions();
    let mut out: Vec<String> = Vec::new();
    let mut i: usize = 0;
    while i < list.len()
        invariant
            i <= list.len(),
            out.len() == i,
            forall|j: int| 0 <= j < i ==> (#[trigger] out@[j])@ == list@[j]@,
        decreases list.len() - i,
    {
        out.push(list[i].to_owned());
        i = i + 1;
    }
    assert(text::views(out@) =~= Seq::new(list@.len(), |j: int| list@[j]@));
    out
}

/// What is said when nothing under the prefix is read.
pub open spec fn nothing_there(location: LocationView, format: FileFormat) -> Seq<char> {
    if format is Delta {
        "no Delta table under `"@ + location.filesystem + "/"@ + location.prefix
            + "` — a table is a directory holding a `_delta_log`"@
    } else {
        "no "@ + text::join(format.extension_list(), " or "@) + " file under `"@
            + location.filesystem + "/"@ + location.prefix + "`"@
    }
}

/// At most so many of those.
pub open spec fn bounded(pairs: Seq<(Seq<char>, Seq<char>)>) -> Seq<(Seq<char>, Seq<char>)> {
    if pairs.len() > MAX_FILES {
        pairs.take(MAX_FILES as int)
    } else {
        pairs
    }
}

/// Azure storage sources.
pub struct AdlsConnector;

impl AdlsConnector {
    /// What has to be settled before the container is listed.
    ///
    /// Files of two formats cannot be one table, so which one a source holds is not
    /// guessed.
    pub fn prepare(&self, config: &SourceConfig) -> (r: Result<Ready, Error>)
        ensures
            match r {
                Ok(ready) => readiness(config@) == Ok::<ReadyView, ErrorView>(ready@),
                Err(e) => readiness(config@) == Err::<ReadyView, ErrorView>(e@),
            },
    {
        let path: Option<&str> = match &config.path {
            Some(path) => Some(path.as_str()),
            None => None,
        };
        let location = match storage::locate(&config.host, path) {
            Ok(location) => location,
            Err(e) => {
                return Err(e);
            },
        };
        let format = match config.options.format {
            Some(format) => format,
            None => {
                return Err(
                    Error::BadRequest(
                        "source `".to_owned().concat(&config.id).concat(
                            "` reads a folder in Azure storage and must say which file type it holds (csv, parquet, json, json_lines or delta).",
                        ),
                    ),
                );
            },
        };
        if format.is_excel() {
            return Err(
                Error::Unsupported(
                    "a spreadsheet in Azure storage cannot be read yet: alkyon reads Excel with calamine, in this process and from a local file, rather than with DuckDB. Every other format is read where it lies.".to_owned(),
                ),
            );
        }
        match &config.auth {
            AuthConfig::AadToken { token } => Ok(Ready { location, format, token: token.clone() }),
            _ => Err(
                Error::Unsupported(
                    "an Azure storage source is reached with a Microsoft Entra sign-in".to_owned(),
                ),
            ),
        }
    }

    /// Open a source whose container was listed. The listing is what its tables are.
    pub fn connect(&self, config: &SourceConfig, ready: Ready, listed: &Vec<Entry>) -> (r: Result<
        FilesConnection,
        Error,
    >)
        ensures
            ({
                let found = wanted(
                    storage::entry_views(listed@),
                    ready.location@,
                    ready.format,
                );
                match r {
                    Ok(c) => {
                        &&& found.len() > 0
                        &&& c.place@ == (PlaceView::Azure {
                            account: account(ready.location@.host),
                            token: ready.token@,
                            catalogue: catalogue(ready.location@),
                            sets: folder::remote_tables(
                                bounded(found),
                                ready.format,
                                config@.options,
                            ),
                        })
                        &&& c.options@ == config@.options
                    },
                    Err(e) => {
                        &&& found.len() == 0
                        &&& e@ == ErrorView::BadRequest(
                            nothing_there(ready.location@, ready.format),
                        )
                    },
                }
            }),
    {
        let Ready { location, format, token } = ready;
        let mut found = pick(listed, &location, format);
        let ghost all = files::pairs_view(found@);
        if found.len() == 0 {
            return Err(
                Error::BadRequest(
                    if format.is_delta() {
                        "no Delta table under `".to_owned().concat(&location.filesystem).concat(
                            "/",
                        ).concat(&location.prefix).concat(
                            "` — a table is a directory holding a `_delta_log`",
                        )
                    } else {
                        "no ".to_owned().concat(
                            &text::joined(&extension_names(format), " or "),
                        ).concat(" file under `").concat(&location.filesystem).concat("/").concat(
                            &location.prefix,
                        ).concat("`")
                    },
                ),
            );
        }
        if found.len() > MAX_FILES {
            found.truncate(MAX_FILES);
        }
        assert(files::pairs_view(found@) =~= bounded(all));
        let access = AzureAccess {
            account: account_of(&location.host),
            token,
            catalogue: catalogue_of(&location),
        };
        Ok(FilesConnection::in_azure(access, &found, format, config.options.clone()))
    }

    pub fn dialect(&self) -> (r: Dialect)
        ensures
            r == Dialect::DuckDb,
    {
        Dialect::DuckDb
    }
}

/// Below the prefix and read at its full path: what a source lists under a prefix is
/// read where the listing said it was, and lies inside that directory rather than beside it.
pub proof fn law_a_path_below_the_prefix_comes_from_it(prefix: Seq<char>, path: Seq<char>)
    requires
        prefix.len() > 0,
        relative(prefix, path) is Some,
    ensures
        text::starts_with(path, prefix),
        text::ends_with(path, relative(prefix, path)->0),
        prefix.last() == '/' || path[prefix.len() as int] == '/',
{
    let rest = text::after_prefix(path, prefix)->0;
    let below = relative(prefix, path)->0;
    text::lemma_run(rest, text::exactly('/'));
    assert(path.skip(path.len() - below.len()) == below);
    if below.len() < rest.len() {
        assert(rest[0] == path[prefix.len() as int]);
    }
}

/// A path below the prefix is what stands behind it and its slash; without a prefix it is
/// the whole path, and a path that only begins alike is not below it.
pub proof fn law_a_path_is_taken_below_the_prefix(
    prefix: Seq<char>,
    below: Seq<char>,
    other: Seq<char>,
)
    requires
        prefix.len() > 0,
        prefix.last() != '/',
        below.len() > 0,
        below[0] != '/',
        other.len() == 0 || other[0] != '/',
    ensures
        relative(prefix, prefix + seq!['/'] + below) == Some(below),
        relative(Seq::empty(), below) == Some(below),
        relative(prefix, prefix + other) is None,
{
    let slash = text::exactly('/');
    let path = prefix + seq!['/'] + below;
    let rest = seq!['/'] + below;
    assert(path.take(prefix.len() as int) == prefix);
    assert(path.skip(prefix.len() as int) == rest);
    text::lemma_run_is(rest, slash, 1);
    assert(rest.skip(1) == below);
    let alike = prefix + other;
    assert(alike.take(prefix.len() as int) == prefix);
    assert(alike.skip(prefix.len() as int) == other);
    text::lemma_run_is(other, slash, 0);
    assert(other.skip(0) == other);
}

/// Of a listing exactly the files below the prefix that are of the format are wanted, each
/// with the address it is read at.
pub proof fn law_every_file_below_the_prefix_is_wanted(
    listed: Seq<EntryView>,
    location: LocationView,
    format: FileFormat,
    entry: (Seq<char>, Seq<char>),
)
    ensures
        wanted(listed, location, format).contains(entry) <==> exists|i: int|
            0 <= i < listed.len() && relative(location.prefix, (#[trigger] listed[i]).path) == Some(
                entry.0,
            ) && kept(entry.0, format) && entry.1 == storage::url(location, listed[i].path),
    decreases listed.len(),
{
    if listed.len() > 0 {
        let before = listed.drop_last();
        law_every_file_below_the_prefix_is_wanted(before, location, format, entry);
        let had = wanted(before, location, format);
        let out = wanted(listed, location, format);
        if had.contains(entry) {
            let k = had.index_of(entry);
            assert(out[k] == entry);
            let i = choose|i: int|
                0 <= i < before.len() && relative(location.prefix, (#[trigger] before[i]).path)
                    == Some(entry.0) && kept(entry.0, format) && entry.1 == storage::url(
                    location,
                    before[i].path,
                );
            assert(listed[i] == before[i]);
        }
        if out.contains(entry) && !had.contains(entry) {
            let k = out.index_of(entry);
            if k < had.len() {
                assert(had[k] == entry);
            }
            assert(listed[listed.len() - 1] == listed.last());
        }
        if exists|i: int|
            0 <= i < listed.len() && relative(location.prefix, (#[trigger] listed[i]).path) == Some(
                entry.0,
            ) && kept(entry.0, format) && entry.1 == storage::url(location, listed[i].path) {
            let i = choose|i: int|
                0 <= i < listed.len() && relative(location.prefix, (#[trigger] listed[i]).path)
                    == Some(entry.0) && kept(entry.0, format) && entry.1 == storage::url(
                    location,
                    listed[i].path,
                );
            if i < before.len() {
                assert(before[i] == listed[i]);
            } else {
                assert(out[out.len() - 1] == entry);
            }
        }
    }
}

/// A source in storage is read where it says, as it says, with its token; it must say which
/// format it holds, and sign in with Entra.
pub proof fn law_a_storage_source_is_read_where_it_says(config: SourceConfigView)
    ensures
        readiness(config) is Ok <==> storage::location_of(config.host, config.path) is Ok
            && config.options.format is Some && !(config.options.format->Some_0 is Excel)
            && config.auth is AadToken,
        readiness(config) matches Ok(ready) ==> {
            &&& storage::location_of(config.host, config.path) == Ok::<LocationView, Seq<char>>(
                ready.location,
            )
            &&& config.options.format == Some(ready.format)
            &&& config.auth == (AuthConfigView::AadToken { token: ready.token })
        },
{
}

/// An account is the first name of its host.
pub proof fn law_an_account_is_the_first_of_its_host(name: Seq<char>, rest: Seq<char>)
    requires
        !name.contains('.'),
    ensures
        account(name) == name,
        account(name + seq!['.'] + rest) == name,
{
    text::law_a_cut_takes_one_character(name, '.');
    let host = name + seq!['.'] + rest;
    let f = text::other_than('.');
    assert forall|i: int| 0 <= i < name.len() implies f(#[trigger] host[i]) by {
        assert(host[i] == name[i]);
        assert(name.contains(name[i]));
    }
    text::lemma_run_is(host, f, name.len() as int);
    assert(host.take(name.len() as int) == name);
}

} // verus!
