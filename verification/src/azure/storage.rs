//! Reading an Azure storage account over the Data Lake Storage Gen2 REST API.
//!
//! One API for three things people call by three names: a blob container with
//! hierarchical namespace on, an ADLS Gen2 filesystem, and a Fabric OneLake workspace
//! are the same surface at three hostnames.
//!
//! Reading only. Nothing here writes, deletes or creates.

use crate::azure::entra;
use crate::error::{Error, ErrorView};
use crate::order::{sort, Ranked};
use crate::table;
use crate::text;
use vstd::prelude::*;
use vstd::string::*;

verus! {

/// The REST API version this speaks.
pub const API_VERSION: &'static str = "2023-11-03";

/// Where a source points: a host, a filesystem, and how far into it.
#[derive(Debug, PartialEq, Eq)]
pub struct Location {
    /// The DFS host.
    pub host: String,
    /// The container, filesystem, or Fabric workspace: the first path segment.
    pub filesystem: String,
    /// How far in, with no leading or trailing slash. Empty means all of it.
    pub prefix: String,
}

/// The value of a [`Location`].
pub struct LocationView {
    pub host: Seq<char>,
    pub filesystem: Seq<char>,
    pub prefix: Seq<char>,
}

impl View for Location {
    type V = LocationView;

    open spec fn view(&self) -> LocationView {
        LocationView { host: self.host@, filesystem: self.filesystem@, prefix: self.prefix@ }
    }
}

impl Clone for Location {
    fn clone(&self) -> (r: Self)
        ensures
            r == *self,
    {
        Location {
            host: self.host.clone(),
            filesystem: self.filesystem.clone(),
            prefix: self.prefix.clone(),
        }
    }
}

/// The part before the first `/` and the part after it, or all of it and nothing.
pub open spec fn first_segment(s: Seq<char>) -> (Seq<char>, Seq<char>) {
    match text::split_once(s, '/') {
        Some(p) => p,
        None => (s, Seq::empty()),
    }
}

fn first_segment_of(s: &str) -> (r: (String, String))
    ensures
        (r.0@, r.1@) == first_segment(s@),
{
    match text::split_first(s, '/') {
        Some(p) => p,
        None => (s.to_owned(), String::new()),
    }
}

/// The pieces of a location written as one URL: filesystem, host and the rest.
/// Nothing where it names no location at all.
pub open spec fn url_pieces(abfs: bool, rest: Seq<char>) -> Option<
    (Seq<char>, Seq<char>, Seq<char>),
> {
    let (authority, path) = first_segment(rest);
    if abfs {
        match text::split_once(authority, '@') {
            Some((filesystem, host)) => Some((filesystem, host, path)),
            None => None,
        }
    } else if text::strip(path, '/').len() == 0 {
        None
    } else {
        let (filesystem, prefix) = first_segment(path);
        Some((filesystem, authority, prefix))
    }
}

/// A whole location written as one URL, in either of the two spellings Azure hands
/// out; nothing where it is not a URL that names one.
pub open spec fn location_in_url(typed: Seq<char>) -> Option<Result<LocationView, Seq<char>>> {
    match text::cut(typed, "://"@) {
        None => None,
        Some((scheme, rest)) => {
            let scheme = text::ascii_lower(scheme);
            let abfs = scheme == "abfss"@ || scheme == "abfs"@;
            if !abfs && scheme != "https"@ && scheme != "http"@ {
                Some(
                    Err(
                        "`"@ + scheme
                            + "://` is not an address alkyon can read. Give an `abfss://` path, an `https://` one, or just the account and the container."@,
                    ),
                )
            } else {
                match url_pieces(abfs, rest) {
                    None => None,
                    Some((filesystem, host, prefix)) => if host.len() == 0 || filesystem.len()
                        == 0 {
                        Some(
                            Err(
                                "`"@ + typed
                                    + "` names no account and container — expected `abfss://<container>@<account>.dfs.core.windows.net/<folder>`"@,
                            ),
                        )
                    } else {
                        Some(
                            Ok(
                                LocationView {
                                    host: dfs_name(text::strip_end(host, '/')),
                                    filesystem,
                                    prefix: text::strip(prefix, '/'),
                                },
                            ),
                        )
                    },
                }
            }
        },
    }
}

/// A whole location written as one URL. `None` when it is not a URL at all, which is
/// the ordinary case.
///
/// ```text
/// abfss://<filesystem>@<host>/<path>   the ABFS driver's form, and Fabric's
/// https://<host>/<filesystem>/<path>   the endpoint's own form
/// ```
///
/// A blob hostname in it is the same account's DFS one.
pub fn from_url(typed: &str) -> (r: Option<Result<Location, Error>>)
    ensures
        match r {
            None => location_in_url(typed@) is None,
            Some(Ok(l)) => location_in_url(typed@) == Some(Ok::<LocationView, Seq<char>>(l@)),
            Some(Err(e)) => e matches Error::BadRequest(m) && location_in_url(typed@) == Some(
                Err::<LocationView, Seq<char>>(m@),
            ),
        },
{
    let (scheme, rest) = match text::cut_at(typed, "://") {
        Some(p) => p,
        None => return None,
    };
    let scheme = text::to_ascii_lower(&scheme);
    let abfs = text::same(&scheme, "abfss") || text::same(&scheme, "abfs");
    if !abfs && !text::same(&scheme, "https") && !text::same(&scheme, "http") {
        // Not a URL we know: say so, rather than reading it as a hostname.
        return Some(
            Err(
                Error::BadRequest(
                    "`".to_owned().concat(&scheme).concat(
                        "://` is not an address alkyon can read. Give an `abfss://` path, an `https://` one, or just the account and the container.",
                    ),
                ),
            ),
        );
    }
    let (authority, path) = first_segment_of(&rest);
    let (filesystem, host, prefix) = if abfs {
        match text::split_first(&authority, '@') {
            Some((filesystem, host)) => (filesystem, host, path),
            None => return None,
        }
    } else {
        // A host and nothing else is a hostname someone copied with its scheme: the
        // container is in the other box.
        if text::stripped(&path, '/').as_str().is_empty() {
            return None;
        }
        let (filesystem, prefix) = first_segment_of(&path);
        (filesystem, authority, prefix)
    };
    if host.as_str().is_empty() || filesystem.as_str().is_empty() {
        return Some(
            Err(
                Error::BadRequest(
                    "`".to_owned().concat(typed).concat(
                        "` names no account and container — expected `abfss://<container>@<account>.dfs.core.windows.net/<folder>`",
                    ),
                ),
            ),
        );
    }
    Some(
        Ok(
            Location {
                host: text::replaced_first(
                    &text::stripped_end(&host, '/'),
                    ".blob.core.windows.net",
                    ".dfs.core.windows.net",
                ),
                filesystem,
                prefix: text::stripped(&prefix, '/'),
            },
        ),
    )
}

/// The host as it was typed, without its scheme and its closing slashes.
pub open spec fn bare_host(host: Seq<char>) -> Seq<char> {
    text::strip_end(
        text::strip_all(text::strip_all(text::trim(host), "https://"@), "http://"@),
        '/',
    )
}

/// The same account's DFS host, for a blob hostname; any other hostname as it is.
pub open spec fn dfs_name(host: Seq<char>) -> Seq<char> {
    text::replace_first(host, ".blob.core.windows.net"@, ".dfs.core.windows.net"@)
}

/// The DFS host an account name or a hostname stands for.
pub open spec fn dfs_host(host: Seq<char>) -> Seq<char> {
    if host.contains('.') {
        dfs_name(host)
    } else {
        host + ".dfs.core.windows.net"@
    }
}

/// Where a host and a path, neither of them a whole URL, point.
pub open spec fn location_in_boxes(host: Seq<char>, path: Seq<char>) -> Result<
    LocationView,
    Seq<char>,
> {
    let bare = bare_host(host);
    let full = dfs_host(bare);
    let inside = text::strip(text::trim(path), '/');
    if bare.len() == 0 {
        Err(
            "an Azure storage source needs an account or a hostname, such as `contoso.dfs.core.windows.net` or `onelake.dfs.fabric.microsoft.com`"@,
        )
    } else if full.contains('/') {
        Err(
            "`"@ + full
                + "` looks like a URL with a path — put the container and folder in the source's path instead"@,
        )
    } else if inside.len() == 0 {
        Err(
            "an Azure storage source needs a path: the container or filesystem, and optionally a folder inside it — `sales` or `sales/exports/2026`"@,
        )
    } else {
        let (filesystem, rest) = first_segment(inside);
        Ok(LocationView { host: full, filesystem, prefix: text::strip(rest, '/') })
    }
}

/// Where a source points: a whole URL in either box is taken before anything else.
pub open spec fn location_of(host: Seq<char>, path: Option<Seq<char>>) -> Result<
    LocationView,
    Seq<char>,
> {
    let path = match path {
        Some(p) => p,
        None => Seq::empty(),
    };
    match location_in_url(text::trim(host)) {
        Some(l) => l,
        None => match location_in_url(text::trim(path)) {
            Some(l) => l,
            None => location_in_boxes(host, path),
        },
    }
}

/// Work out where a source points from what someone typed: a bare account name, a
/// blob hostname, a DFS hostname, or a whole URL in either box.
pub fn locate(host: &str, path: Option<&str>) -> (r: Result<Location, Error>)
    ensures
        match r {
            Ok(l) => location_of(host@, text::opt_str(path)) == Ok::<LocationView, Seq<char>>(
                l@,
            ),
            Err(e) => e matches Error::BadRequest(m) && location_of(host@, text::opt_str(path))
                == Err::<LocationView, Seq<char>>(m@),
        },
{
    let path = match path {
        Some(p) => p.to_owned(),
        None => String::new(),
    };
    if let Some(located) = from_url(&text::trimmed(host)) {
        return located;
    }
    if let Some(located) = from_url(&text::trimmed(&path)) {
        return located;
    }
    proof {
        reveal_strlit("https://");
        reveal_strlit("http://");
    }
    let bare = text::stripped_end(
        &text::stripped_all(&text::stripped_all(&text::trimmed(host), "https://"), "http://"),
        '/',
    );
    if bare.as_str().is_empty() {
        return Err(
            Error::BadRequest(
                "an Azure storage source needs an account or a hostname, such as `contoso.dfs.core.windows.net` or `onelake.dfs.fabric.microsoft.com`".to_owned(),
            ),
        );
    }
    // A bare account name is the common case; a blob hostname is quietly the same
    // account's DFS one.
    let full = if text::holds_char(&bare, '.') {
        text::replaced_first(&bare, ".blob.core.windows.net", ".dfs.core.windows.net")
    } else {
        bare.concat(".dfs.core.windows.net")
    };
    if text::holds_char(&full, '/') {
        return Err(
            Error::BadRequest(
                "`".to_owned().concat(&full).concat(
                    "` looks like a URL with a path — put the container and folder in the source's path instead",
                ),
            ),
        );
    }
    let inside = text::stripped(&text::trimmed(&path), '/');
    if inside.as_str().is_empty() {
        return Err(
            Error::BadRequest(
                "an Azure storage source needs a path: the container or filesystem, and optionally a folder inside it — `sales` or `sales/exports/2026`".to_owned(),
            ),
        );
    }
    let (filesystem, rest) = first_segment_of(&inside);
    Ok(Location { host: full, filesystem, prefix: text::stripped(&rest, '/') })
}

proof fn lemma_strip(s: Seq<char>, c: char)
    ensures
        text::strip(s, c).len() <= s.len(),
        text::strip(s, c).len() > 0 ==> text::strip(s, c)[0] != c && text::strip(s, c).last() != c,
        forall|i: int| 0 <= i < text::strip(s, c).len() ==> s.contains(#[trigger] text::strip(s, c)[i]),
{
    text::lemma_run(s, text::exactly(c));
    let a = text::run(s, text::exactly(c)) as int;
    let t = text::strip_start(s, c);
    text::lemma_run_back(t, text::exactly(c));
    let n = text::run_back(t, text::exactly(c)) as int;
    let r = text::strip(s, c);
    if r.len() > 0 {
        assert(r[0] == s[a]);
        assert(r.last() == t[t.len() - n - 1]);
    }
    assert forall|i: int| 0 <= i < r.len() implies s.contains(#[trigger] r[i]) by {
        assert(r[i] == s[a + i]);
    }
}

proof fn lemma_dfs_name(host: Seq<char>)
    requires
        host.len() > 0,
    ensures
        dfs_name(host).len() > 0,
{
    reveal_strlit(".dfs.core.windows.net");
}

/// A location always names an account and a container, and how far in it points never
/// begins or ends with a slash.
pub proof fn law_a_location_is_whole(host: Seq<char>, path: Option<Seq<char>>)
    ensures
        location_of(host, path) matches Ok(l) ==> {
            &&& l.host.len() > 0
            &&& l.filesystem.len() > 0
            &&& l.prefix.len() > 0 ==> l.prefix[0] != '/' && l.prefix.last() != '/'
        },
{
    let typed = match path {
        Some(p) => p,
        None => Seq::empty(),
    };
    lemma_url_is_whole(text::trim(host));
    lemma_url_is_whole(text::trim(typed));
    if bare_host(host).len() > 0 {
        lemma_dfs_name(bare_host(host));
    }
    let inside = text::strip(text::trim(typed), '/');
    lemma_strip(text::trim(typed), '/');
    let (filesystem, rest) = first_segment(inside);
    lemma_strip(rest, '/');
    text::lemma_run(inside, text::other_than('/'));
    if inside.len() > 0 && filesystem.len() == 0 {
        assert(inside[0] == '/');
    }
}

proof fn lemma_url_is_whole(typed: Seq<char>)
    ensures
        location_in_url(typed) matches Some(Ok(l)) ==> {
            &&& l.host.len() > 0
            &&& l.filesystem.len() > 0
            &&& l.prefix.len() > 0 ==> l.prefix[0] != '/' && l.prefix.last() != '/'
        },
{
    if let Some((scheme, rest)) = text::cut(typed, "://"@) {
        let lower = text::ascii_lower(scheme);
        let abfs = lower == "abfss"@ || lower == "abfs"@;
        if let Some((filesystem, host, prefix)) = url_pieces(abfs, rest) {
            lemma_strip(prefix, '/');
            lemma_first_segment(rest);
            let authority = first_segment(rest).0;
            if host.len() > 0 {
                if abfs {
                    let n = text::position(authority, '@') as int;
                    assert(host.last() == authority[n + 1 + host.len() - 1]);
                }
                assert(authority.contains(host.last()));
                text::lemma_run_back_is(host, text::exactly('/'), 0);
                assert(text::strip_end(host, '/') == host);
                lemma_dfs_name(host);
            }
        }
    }
}

/// No slash stands in a first segment.
proof fn lemma_first_segment(s: Seq<char>)
    ensures
        !first_segment(s).0.contains('/'),
{
    text::lemma_run(s, text::other_than('/'));
    let first = first_segment(s).0;
    assert forall|i: int| 0 <= i < first.len() implies first[i] != '/' by {
        assert(first[i] == s[i]);
    }
}

/// What a location's own path, or one below it, is read at.
pub open spec fn url(location: LocationView, path: Seq<char>) -> Seq<char> {
    "abfss://"@ + location.filesystem + "@"@ + location.host + "/"@ + path
}

/// Neither empty nor holding a separator or white space.
pub open spec fn is_plain(name: Seq<char>) -> bool {
    &&& name.len() > 0
    &&& forall|i: int|
        0 <= i < name.len() ==> (#[trigger] name[i]) != '/' && name[i] != '@' && !text::is_white(
            name[i],
        )
}

/// A location that a URL can spell: its host is no blob one, and its prefix has no slash
/// at either end.
pub open spec fn is_spelled(l: LocationView) -> bool {
    &&& is_plain(l.host)
    &&& !text::contains(l.host, ".blob.core.windows.net"@)
    &&& is_plain(l.filesystem)
    &&& forall|i: int| 0 <= i < l.prefix.len() ==> !text::is_white(#[trigger] l.prefix[i])
    &&& l.prefix.len() > 0 ==> l.prefix[0] != '/' && l.prefix.last() != '/'
}

proof fn lemma_url_reads_back(l: LocationView)
    requires
        is_spelled(l),
    ensures
        text::trim(url(l, l.prefix)) == url(l, l.prefix),
        location_in_url(url(l, l.prefix)) == Some(Ok::<LocationView, Seq<char>>(l)),
{
    reveal_strlit("abfss://");
    reveal_strlit("abfss");
    reveal_strlit("://");
    reveal_strlit("@");
    reveal_strlit("/");
    let typed = url(l, l.prefix);
    let authority = l.filesystem + "@"@ + l.host;
    let rest = authority + "/"@ + l.prefix;
    assert(typed =~= "abfss://"@ + rest);
    assert(typed[0] == 'a');
    let last = typed[typed.len() - 1];
    assert(last == '/' || (l.prefix.len() > 0 && last == l.prefix.last()));
    text::lemma_run_is(typed, text::white(), 0);
    assert(typed.skip(0) =~= typed);
    text::lemma_run_back_is(typed, text::white(), 0);
    assert(typed.take(typed.len() as int) =~= typed);
    assert(typed.skip(5).take(3) =~= "://"@);
    assert forall|i: int| 0 <= i < 5 implies !text::starts_with(#[trigger] typed.skip(i), "://"@) by {
        assert(typed.skip(i)[0] == typed[i]);
        if text::starts_with(typed.skip(i), "://"@) {
            assert(typed.skip(i).take(3)[0] == "://"@[0]);
        }
    }
    text::lemma_find_is(typed, "://"@, 5);
    assert(typed.skip(8) =~= rest);
    assert(text::ascii_lower(typed.take(5)) =~= "abfss"@);
    assert forall|i: int| 0 <= i < authority.len() implies (#[trigger] rest[i]) != '/' by {
        if i < l.filesystem.len() {
            assert(rest[i] == l.filesystem[i]);
        } else if i > l.filesystem.len() {
            assert(rest[i] == l.host[i - l.filesystem.len() - 1]);
        }
    }
    assert(rest[authority.len() as int] == '/');
    text::lemma_run_is(rest, text::other_than('/'), authority.len() as int);
    assert(rest.take(authority.len() as int) =~= authority);
    assert(rest.skip(authority.len() as int + 1) =~= l.prefix);
    assert(authority[l.filesystem.len() as int] == '@');
    assert forall|i: int| 0 <= i < l.filesystem.len() implies (#[trigger] authority[i]) != '@' by {
        assert(authority[i] == l.filesystem[i]);
    }
    text::lemma_run_is(authority, text::other_than('@'), l.filesystem.len() as int);
    assert(authority.take(l.filesystem.len() as int) =~= l.filesystem);
    assert(authority.skip(l.filesystem.len() as int + 1) =~= l.host);
    text::lemma_run_back_is(l.host, text::exactly('/'), 0);
    assert(text::strip_end(l.host, '/') =~= l.host);
    text::lemma_find(l.host, ".blob.core.windows.net"@);
    text::lemma_run_is(l.prefix, text::exactly('/'), 0);
    assert(text::strip_start(l.prefix, '/') =~= l.prefix);
    text::lemma_run_back_is(l.prefix, text::exactly('/'), 0);
    assert(text::strip(l.prefix, '/') =~= l.prefix);
}

/// A location spelled as the URL its files are read at is read back as itself: in the
/// box for the host whatever the other one holds, and in the box for the path unless the
/// host is a URL of its own.
pub proof fn law_a_location_is_read_back_from_its_url(
    l: LocationView,
    host: Seq<char>,
    path: Option<Seq<char>>,
)
    requires
        is_spelled(l),
        !text::contains(host, "://"@),
    ensures
        location_of(url(l, l.prefix), path) == Ok::<LocationView, Seq<char>>(l),
        location_of(host, Some(url(l, l.prefix))) == Ok::<LocationView, Seq<char>>(l),
{
    lemma_url_reads_back(l);
    let bare = text::trim(host);
    text::lemma_find(bare, "://"@);
    if let Some(n) = text::find(bare, "://"@) {
        text::lemma_run(host, text::white());
        let start = text::run(host, text::white()) as int;
        text::lemma_run_back(text::trim_start(host), text::white());
        reveal_strlit("://");
        assert(host.skip(start + n).take(3) =~= bare.skip(n as int).take(3));
        assert(text::starts_with(host.skip(start + n), "://"@));
    }
}

// --------------------------------------------------------------------- listing

/// One file in the filesystem.
#[derive(Debug, Clone, PartialEq, Eq)]
pub struct Entry {
    /// Relative to the filesystem, with forward slashes.
    pub path: String,
    pub bytes: u64,
    /// The storage service's own version marker.
    pub etag: String,
}

/// The value of an [`Entry`].
pub struct EntryView {
    pub path: Seq<char>,
    pub bytes: u64,
    pub etag: Seq<char>,
}

impl View for Entry {
    type V = EntryView;

    open spec fn view(&self) -> EntryView {
        EntryView { path: self.path@, bytes: self.bytes, etag: self.etag@ }
    }
}

impl Ranked for Entry {
    open spec fn precedes(&self, other: &Self) -> bool {
        table::before(self.path@, other.path@)
    }

    fn ahead_of(&self, other: &Self) -> (r: bool) {
        table::comes_before(&self.path, &other.path)
    }

    proof fn lemma_asymmetric(a: &Self, b: &Self) {
        if a.precedes(b) && b.precedes(a) {
            table::lemma_before_transitive(a.path@, b.path@, a.path@);
            table::lemma_before_irreflexive(a.path@);
        }
    }

    proof fn lemma_steps(a: &Self, b: &Self, c: &Self) {
        table::lemma_not_before(a.path@, b.path@, c.path@);
    }
}

/// One line of a listing, as the DFS endpoint answers it: numbers arrive as strings,
/// and only a directory says whether it is one.
pub struct PathEntry {
    pub name: String,
    pub is_directory: Option<String>,
    pub content_length: Option<String>,
    pub etag: Option<String>,
}

impl PathEntry {
    pub open spec fn directory(&self) -> bool {
        text::opt(self.is_directory) == Some("true"@)
    }

    /// The file a line of a listing describes. A length that cannot be read counts as
    /// none, and so does a version marker that is not there.
    pub open spec fn file(&self) -> EntryView {
        EntryView {
            path: self.name@,
            bytes: match self.content_length {
                Some(t) => match text::number(t@) {
                    Some(n) => if n <= u64::MAX {
                        n as u64
                    } else {
                        0
                    },
                    None => 0,
                },
                None => 0,
            },
            etag: match self.etag {
                Some(t) => t@,
                None => Seq::empty(),
            },
        }
    }
}

pub open spec fn entry_views(v: Seq<Entry>) -> Seq<EntryView> {
    Seq::new(v.len(), |i: int| v[i]@)
}

/// The files among the first `n` lines of a listing.
pub open spec fn files_upto(listed: Seq<PathEntry>, n: nat) -> Seq<EntryView>
    decreases n,
{
    if n == 0 {
        Seq::empty()
    } else {
        let before = files_upto(listed, (n - 1) as nat);
        if listed[n - 1].directory() {
            before
        } else {
            before.push(listed[n - 1].file())
        }
    }
}

/// Add the files of one page of a listing. Directories are not reported: what a
/// source reads is files.
pub fn add_page(entries: &mut Vec<Entry>, listed: &Vec<PathEntry>)
    ensures
        entry_views(final(entries)@) == entry_views(old(entries)@) + files_upto(
            listed@,
            listed@.len(),
        ),
{
    let ghost start = entry_views(entries@);
    let mut i: usize = 0;
    assert(start + files_upto(listed@, 0) == start);
    while i < listed.len()
        invariant
            i <= listed.len(),
            entry_views(entries@) == start + files_upto(listed@, i as nat),
        decreases listed.len() - i,
    {
        let line = &listed[i];
        let directory = match &line.is_directory {
            Some(t) => text::same(t, "true"),
            None => false,
        };
        let ghost before = entry_views(entries@);
        let ghost done = files_upto(listed@, i as nat);
        if !directory {
            let bytes: u64 = match &line.content_length {
                Some(t) => match text::parse_u64(t) {
                    Some(n) => n,
                    None => 0,
                },
                None => 0,
            };
            let etag = match &line.etag {
                Some(t) => t.clone(),
                None => String::new(),
            };
            entries.push(Entry { path: line.name.clone(), bytes, etag });
            assert(entry_views(entries@) == before.push(line.file()));
            assert((start + done).push(line.file()) == start + done.push(line.file()));
        }
        i = i + 1;
    }
}

/// The pages of a listing as one, in the order of the paths.
pub fn finish_listing(entries: Vec<Entry>) -> (r: Vec<Entry>)
    ensures
        r@ == crate::order::in_order(entries@),
{
    sort(entries)
}

/// A path as it stands in a URL: each segment encoded, the separators left alone.
pub open spec fn escaped_path(path: Seq<char>) -> Seq<char> {
    let segments = text::split(path, '/');
    text::join(Seq::new(segments.len(), |i: int| entra::escaped(segments[i])), "/"@)
}

/// Percent-encode a path, leaving its separators alone.
pub fn encode_path(path: &str) -> (r: String)
    ensures
        r@ == escaped_path(path@),
{
    let segments = text::split_all(path, '/');
    let ghost all = text::views(segments@);
    let mut out: Vec<String> = Vec::new();
    let mut i: usize = 0;
    while i < segments.len()
        invariant
            i <= segments.len(),
            all == text::views(segments@),
            out.len() == i,
            forall|j: int| 0 <= j < i ==> (#[trigger] out@[j])@ == entra::escaped(all[j]),
        decreases segments.len() - i,
    {
        out.push(encode_query(&segments[i]));
        i = i + 1;
    }
    assert(text::views(out@) == Seq::new(all.len(), |j: int| entra::escaped(all[j])));
    text::joined(&out, "/")
}

/// Percent-encode one query value or path segment.
pub fn encode_query(value: &str) -> (r: String)
    ensures
        r@ == entra::escaped(value@),
{
    entra::encode(value)
}

/// Where one page of a listing is asked for.
pub open spec fn list_address(l: LocationView, continuation: Option<Seq<char>>) -> Seq<char> {
    let base = "https://"@ + l.host + "/"@ + escaped_path(l.filesystem)
        + "?resource=filesystem&recursive=true"@;
    let there = if l.prefix.len() > 0 {
        base + "&directory="@ + entra::escaped(l.prefix)
    } else {
        base
    };
    match continuation {
        Some(token) => there + "&continuation="@ + entra::escaped(token),
        None => there,
    }
}

/// The address of one page of the listing of everything under the source's prefix.
/// The service caps a listing and hands back a token to go on with.
pub fn list_url(location: &Location, continuation: Option<&str>) -> (r: String)
    ensures
        r@ == list_address(location@, text::opt_str(continuation)),
{
    let mut url = "https://".to_owned().concat(&location.host).concat("/").concat(
        &encode_path(&location.filesystem),
    ).concat("?resource=filesystem&recursive=true");
    if !location.prefix.as_str().is_empty() {
        url = url.concat("&directory=").concat(&encode_query(&location.prefix));
    }
    if let Some(token) = continuation {
        url = url.concat("&continuation=").concat(&encode_query(token));
    }
    url
}

/// The address one file is read from.
pub fn file_url(location: &Location, path: &str) -> (r: String)
    ensures
        r@ == "https://"@ + location.host@ + "/"@ + escaped_path(location.filesystem@) + "/"@
            + escaped_path(path@),
{
    "https://".to_owned().concat(&location.host).concat("/").concat(
        &encode_path(&location.filesystem),
    ).concat("/").concat(&encode_path(path))
}

/// What a refusal means, and what to do about it.
pub open spec fn refusal(
    l: LocationView,
    status: u16,
    shown: Seq<char>,
    code: Seq<char>,
    doing: Seq<char>,
) -> Seq<char> {
    if status == 401 {
        "the sign-in was refused — sign in again on this source"@
    } else if status == 403 {
        "signed in, but not allowed to "@ + doing
            + " this. Reading a storage account needs the Storage Blob Data Reader role on it — being its Owner is not enough, because that grants management and not data"@
    } else if status == 404 {
        "`"@ + l.host + "` holds no `"@ + l.filesystem + "`"@
    } else if code.len() == 0 {
        "Azure storage answered "@ + shown
    } else {
        "Azure storage answered "@ + shown + " ("@ + code + ")"@
    }
}

/// Turn a status code into the sentence that says what to do about it. `shown` is the
/// status as it is written out, and `code` the service's own error code, or empty.
pub fn explain(location: &Location, status: u16, shown: &str, code: &str, doing: &str) -> (r: Error)
    ensures
        r@ == ErrorView::BadRequest(refusal(location@, status, shown@, code@, doing@)),
{
    let said = if status == 401 {
        "the sign-in was refused — sign in again on this source".to_owned()
    } else if status == 403 {
        "signed in, but not allowed to ".to_owned().concat(doing).concat(
            " this. Reading a storage account needs the Storage Blob Data Reader role on it — being its Owner is not enough, because that grants management and not data",
        )
    } else if status == 404 {
        "`".to_owned().concat(&location.host).concat("` holds no `").concat(
            &location.filesystem,
        ).concat("`")
    } else if code.is_empty() {
        "Azure storage answered ".to_owned().concat(shown)
    } else {
        "Azure storage answered ".to_owned().concat(shown).concat(" (").concat(code).concat(")")
    };
    Error::BadRequest(said)
}

/// Every file of a listing is there, as it was listed and in order; directories are not.
pub proof fn law_a_listing_keeps_every_file(listed: Seq<PathEntry>, n: nat)
    requires
        n <= listed.len(),
    ensures
        forall|i: int|
            0 <= i < n && !(#[trigger] listed[i]).directory() ==> files_upto(listed, n).contains(
                listed[i].file(),
            ),
        forall|k: int|
            0 <= k < files_upto(listed, n).len() ==> exists|i: int|
                0 <= i < n && !(#[trigger] listed[i]).directory() && listed[i].file()
                    == #[trigger] files_upto(listed, n)[k],
    decreases n,
{
    if n > 0 {
        let m = (n - 1) as nat;
        law_a_listing_keeps_every_file(listed, m);
        let before = files_upto(listed, m);
        let out = files_upto(listed, n);
        assert forall|i: int| 0 <= i < n && !(#[trigger] listed[i]).directory() implies out.contains(
            listed[i].file(),
        ) by {
            if i < m {
                let k = before.index_of(listed[i].file());
                assert(out[k] == listed[i].file());
            } else {
                assert(out[out.len() - 1] == listed[i].file());
            }
        }
        assert forall|k: int| 0 <= k < out.len() implies exists|i: int|
            0 <= i < n && !(#[trigger] listed[i]).directory() && listed[i].file()
                == #[trigger] out[k] by {
            if k < before.len() {
                assert(before[k] == out[k]);
                let i = choose|i: int|
                    0 <= i < m && !(#[trigger] listed[i]).directory() && listed[i].file()
                        == before[k];
                assert(listed[i].file() == out[k]);
            } else {
                assert(listed[n - 1].file() == out[k]);
            }
        }
    }
}

/// A listing is asked of the account and container, of the folder where there is one, and
/// goes on where the last page ended.
pub proof fn law_a_listing_is_asked_of_its_place(l: LocationView, token: Seq<char>)
    ensures
        ({
            let base = "https://"@ + l.host + "/"@ + escaped_path(l.filesystem)
                + "?resource=filesystem&recursive=true"@;
            &&& l.prefix.len() == 0 ==> list_address(l, None) == base
            &&& l.prefix.len() > 0 ==> list_address(l, None) == base + "&directory="@
                + entra::escaped(l.prefix)
            &&& list_address(l, Some(token)) == list_address(l, None) + "&continuation="@
                + entra::escaped(token)
        }),
{
}

proof fn lemma_stands_as_typed(s: Seq<char>)
    requires
        s.len() > 0,
        !text::is_white(s[0]),
        !text::is_white(s.last()),
    ensures
        text::trim(s) == s,
{
    text::lemma_run_is(s, text::white(), 0);
    assert(s.skip(0) == s);
    text::lemma_run_back_is(s, text::white(), 0);
    assert(s.take(s.len() as int) == s);
}

proof fn lemma_no_scheme(s: Seq<char>)
    requires
        forall|i: int| 0 <= i < s.len() ==> (#[trigger] s[i]) != ':',
    ensures
        location_in_url(s) is None,
{
    reveal_strlit("://");
    text::lemma_find(s, "://"@);
    if let Some(n) = text::find(s, "://"@) {
        assert(s.skip(n as int).take(3)[0] == s[n as int]);
    }
}

/// An account and a path in the two boxes are that account's container and folder: a bare
/// account is completed to its host.
pub proof fn law_an_account_and_a_path_are_a_place(
    account: Seq<char>,
    container: Seq<char>,
    folder: Seq<char>,
)
    requires
        is_plain(account),
        is_plain(container),
        is_plain(folder),
        !account.contains('.'),
        !account.contains(':'),
        !container.contains(':'),
        !folder.contains(':'),
    ensures
        location_of(account, Some(container)) == Ok::<LocationView, Seq<char>>(
            LocationView {
                host: account + ".dfs.core.windows.net"@,
                filesystem: container,
                prefix: Seq::empty(),
            },
        ),
        location_of(account, Some(container + seq!['/'] + folder)) == Ok::<
            LocationView,
            Seq<char>,
        >(
            LocationView {
                host: account + ".dfs.core.windows.net"@,
                filesystem: container,
                prefix: folder,
            },
        ),
{
    let path = container + seq!['/'] + folder;
    assert forall|i: int| 0 <= i < account.len() implies (#[trigger] account[i]) != ':' by {
        assert(account.contains(account[i]));
    }
    assert forall|i: int| 0 <= i < container.len() implies (#[trigger] container[i]) != ':' by {
        assert(container.contains(container[i]));
    }
    assert forall|i: int| 0 <= i < path.len() implies (#[trigger] path[i]) != ':' by {
        if i < container.len() {
            assert(container.contains(container[i]));
        } else if i > container.len() {
            assert(folder.contains(folder[i - container.len() - 1]));
        }
    }
    lemma_stands_as_typed(account);
    lemma_stands_as_typed(container);
    lemma_stands_as_typed(path);
    lemma_no_scheme(account);
    lemma_no_scheme(container);
    lemma_no_scheme(path);
    reveal_strlit("https://");
    reveal_strlit("http://");
    if text::starts_with(account, "https://"@) {
        assert(account.take(8)[5] == account[5]);
    }
    if text::starts_with(account, "http://"@) {
        assert(account.take(7)[4] == account[4]);
    }
    let slash = text::exactly('/');
    text::lemma_run_back_is(account, slash, 0);
    assert(account.take(account.len() as int) == account);
    let host = account + ".dfs.core.windows.net"@;
    reveal_strlit(".dfs.core.windows.net");
    assert(!host.contains('/')) by {
        assert forall|i: int| 0 <= i < host.len() implies host[i] != '/' by {
            if i < account.len() {
                assert(account[i] != '/');
            }
        }
    }
    lemma_between_slashes(container);
    lemma_between_slashes(path);
    lemma_between_slashes(folder);
    text::law_a_cut_takes_one_character(container, '/');
    assert(!container.contains('/'));
    let other = text::other_than('/');
    assert forall|i: int| 0 <= i < container.len() implies other(#[trigger] path[i]) by {
        assert(path[i] == container[i]);
    }
    text::lemma_run_is(path, other, container.len() as int);
    assert(path.take(container.len() as int) == container);
    assert(path.skip(container.len() as int + 1) == folder);
    let none = Seq::<char>::empty();
    text::lemma_run_is(none, slash, 0);
    text::lemma_run_back_is(none, slash, 0);
    assert(text::strip(none, '/') == none);
}

proof fn lemma_between_slashes(s: Seq<char>)
    requires
        s.len() > 0,
        s[0] != '/',
        s.last() != '/',
    ensures
        text::strip(s, '/') == s,
{
    let slash = text::exactly('/');
    text::lemma_run_is(s, slash, 0);
    assert(s.skip(0) == s);
    text::lemma_run_back_is(s, slash, 0);
    assert(s.take(s.len() as int) == s);
}

} // verus!
