//! The open folder: which directory the `.sql` tree, the file API and the terminal's
//! working directory all refer to.

use crate::error::{Error, ErrorView};
use crate::order::{self, Ranked};
use crate::paths;
use crate::table;
use crate::text;
use crate::tree::{self, Child, ChildView};
use vstd::prelude::*;
use vstd::string::*;

verus! {

/// Only files of this extension are listed, read or written.
pub const EXTENSION: &'static str = "sql";

/// How many levels below the root are walked.
pub const MAX_DEPTH: usize = 8;

/// How many files are listed.
pub const MAX_FILES: usize = 2_000;

/// One file of the open folder.
#[derive(Debug, Clone)]
pub struct Entry {
    /// Relative to the root, always with `/` between the parts.
    pub path: String,
    pub name: String,
    pub bytes: u64,
}

#[verifier::ext_equal]
pub struct EntryView {
    pub path: Seq<char>,
    pub name: Seq<char>,
    pub bytes: u64,
}

impl View for Entry {
    type V = EntryView;

    open spec fn view(&self) -> EntryView {
        EntryView { path: self.path@, name: self.name@, bytes: self.bytes }
    }
}

pub open spec fn entries_view(entries: Seq<Entry>) -> Seq<EntryView> {
    Seq::new(entries.len(), |i: int| entries[i]@)
}

/// How deep a path goes.
pub open spec fn depth_of(path: Seq<char>) -> nat {
    text::count(path, '/')
}

/// Shallowest first, then alphabetical.
pub open spec fn goes_first(a: EntryView, b: EntryView) -> bool {
    depth_of(a.path) < depth_of(b.path) || (depth_of(a.path) == depth_of(b.path) && table::before(
        a.path,
        b.path,
    ))
}

pub open spec fn by_depth() -> spec_fn(EntryView, EntryView) -> bool {
    |a: EntryView, b: EntryView| goes_first(a, b)
}

fn slashes(path: &str) -> (n: usize)
    ensures
        n == depth_of(path@),
{
    let v = text::chars_of(path);
    assert(v@.take(v@.len() as int) == v@);
    text::count_before(&v, v.len(), '/')
}

impl Ranked for Entry {
    open spec fn precedes(&self, other: &Self) -> bool {
        goes_first(self@, other@)
    }

    fn ahead_of(&self, other: &Self) -> (r: bool) {
        let a = slashes(&self.path);
        let b = slashes(&other.path);
        a < b || (a == b && table::comes_before(&self.path, &other.path))
    }

    proof fn lemma_asymmetric(a: &Self, b: &Self) {
        if table::before(a.path@, b.path@) && table::before(b.path@, a.path@) {
            table::lemma_before_transitive(a.path@, b.path@, a.path@);
            table::lemma_before_irreflexive(a.path@);
        }
    }

    proof fn lemma_steps(a: &Self, b: &Self, c: &Self) {
        table::lemma_not_before(a.path@, b.path@, c.path@);
    }
}

/// Whether the name of a file has the extension, whatever its case.
pub open spec fn is_sql(name: Seq<char>) -> bool {
    match paths::stem_and_extension(name).1 {
        Some(extension) => text::same_but_case(extension, EXTENSION@),
        None => false,
    }
}

fn named_sql(name: &str) -> (r: bool)
    ensures
        r == is_sql(name@),
{
    match paths::name_extension(name) {
        Some(extension) => text::eq_ignore_case(&extension, EXTENSION),
        None => false,
    }
}

// ------------------------------------------------------------------------ listing

/// A listing so far. `truncated` says that it is not complete.
#[verifier::ext_equal]
pub struct Listing {
    pub entries: Seq<EntryView>,
    pub truncated: bool,
}

pub open spec fn entry(relative: Seq<char>, name: Seq<char>, bytes: u64) -> EntryView {
    EntryView { path: tree::slashed(tree::under(relative, name)), name, bytes }
}

/// What a directory adds to a listing.
pub open spec fn walked(
    children: Seq<ChildView>,
    relative: Seq<char>,
    depth: nat,
    listing: Listing,
) -> Listing
    decreases MAX_DEPTH + 1 - depth, 1nat, 0nat,
{
    if depth > MAX_DEPTH {
        Listing { truncated: true, ..listing }
    } else {
        walked_upto(children, children.len(), relative, depth, listing)
    }
}

/// What the first `n` children of a directory add to a listing.
pub open spec fn walked_upto(
    children: Seq<ChildView>,
    n: nat,
    relative: Seq<char>,
    depth: nat,
    listing: Listing,
) -> Listing
    decreases MAX_DEPTH + 1 - depth, 0nat, n,
{
    if n == 0 || n > children.len() || depth > MAX_DEPTH {
        listing
    } else {
        let before = walked_upto(children, (n - 1) as nat, relative, depth, listing);
        if before.entries.len() >= MAX_FILES {
            Listing { truncated: true, ..before }
        } else {
            match children[n - 1] {
                ChildView::File { name, bytes } => if is_sql(name) {
                    Listing { entries: before.entries.push(entry(relative, name, bytes)), ..before }
                } else {
                    before
                },
                ChildView::Folder { name, children: inside } => if tree::passed_over(name) {
                    before
                } else {
                    walked(inside, tree::under(relative, name), depth + 1, before)
                },
            }
        }
    }
}

fn walk(
    children: &Vec<Child>,
    relative: &str,
    depth: usize,
    entries: &mut Vec<Entry>,
    truncated: &mut bool,
)
    requires
        depth <= MAX_DEPTH + 1,
    ensures
        (Listing { entries: entries_view(final(entries)@), truncated: *final(truncated) })
            == walked(
            tree::seen(children@),
            relative@,
            depth as nat,
            Listing { entries: entries_view(old(entries)@), truncated: *old(truncated) },
        ),
    decreases MAX_DEPTH + 1 - depth,
{
    if depth > MAX_DEPTH {
        *truncated = true;
        return;
    }
    let ghost all = tree::seen(children@);
    let ghost start = Listing { entries: entries_view(entries@), truncated: *truncated };
    let mut i: usize = 0;
    while i < children.len()
        invariant
            i <= children.len(),
            depth <= MAX_DEPTH,
            all == tree::seen(children@),
            (Listing { entries: entries_view(entries@), truncated: *truncated }) == walked_upto(
                all,
                i as nat,
                relative@,
                depth as nat,
                start,
            ),
        decreases children.len() - i,
    {
        let ghost before = entries_view(entries@);
        assert(all[i as int] == children@[i as int]@);
        if entries.len() >= MAX_FILES {
            *truncated = true;
        } else {
            match &children[i] {
                Child::File { name, bytes } => {
                    if named_sql(name) {
                        entries.push(
                            Entry {
                                path: tree::slash(&tree::below(relative, name)),
                                name: name.clone(),
                                bytes: *bytes,
                            },
                        );
                        assert(entries_view(entries@) == before.push(
                            entry(relative@, name@, *bytes),
                        ));
                    }
                },
                Child::Folder { name, children: inside } => {
                    proof {
                        tree::lemma_folder(children@[i as int]);
                    }
                    if !tree::is_passed_over(name) {
                        walk(inside, &tree::below(relative, name), depth + 1, entries, truncated);
                    }
                },
            }
        }
        i = i + 1;
    }
}

pub open spec fn nothing_yet() -> Listing {
    Listing { entries: Seq::empty(), truncated: false }
}

/// Every `.sql` file of a folder, shallowest first then alphabetical, and whether the
/// list had to stop short of all of them.
pub fn list(root: &Vec<Child>) -> (r: (Vec<Entry>, bool))
    ensures
        ({
            let all = walked(tree::seen(root@), Seq::empty(), 0, nothing_yet());
            &&& entries_view(r.0@) == order::sorted_by(all.entries, by_depth())
            &&& r.1 == all.truncated
        }),
{
    let mut entries: Vec<Entry> = Vec::new();
    let mut truncated = false;
    assert(entries_view(entries@) == Seq::<EntryView>::empty());
    let top = "";
    proof {
        reveal_strlit("");
        assert(top@ == Seq::<char>::empty());
    }
    walk(root, top, 0, &mut entries, &mut truncated);
    let ghost found = entries@;
    let sorted = order::sort(entries);
    proof {
        let f = |e: Entry| e@;
        order::lemma_sorted_views(found, f, by_depth());
        assert(found.map_values(f) == entries_view(found));
        assert(sorted@.map_values(f) == entries_view(sorted@));
    }
    (sorted, truncated)
}

/// Every `.sql` file below a directory, however many and however deep.
pub open spec fn every(children: Seq<ChildView>, relative: Seq<char>) -> Seq<EntryView>
    decreases children,
{
    if children.len() == 0 {
        Seq::empty()
    } else {
        every(children.drop_last(), relative) + (match children[children.len() - 1] {
            ChildView::File { name, bytes } => if is_sql(name) {
                seq![entry(relative, name, bytes)]
            } else {
                Seq::empty()
            },
            ChildView::Folder { name, children: inside } => if tree::passed_over(name) {
                Seq::empty()
            } else {
                every(inside, tree::under(relative, name))
            },
        })
    }
}

/// A listing that does not say it stopped short is complete: it has every `.sql` file
/// below the root outside the directories that are passed over. Either way it has no
/// more than it may.
pub proof fn law_a_listing_is_complete_or_says_so(children: Seq<ChildView>)
    ensures
        ({
            let all = walked(children, Seq::empty(), 0, nothing_yet());
            &&& !all.truncated ==> all.entries == every(children, Seq::empty())
            &&& all.entries.len() <= MAX_FILES
        }),
{
    lemma_complete(children, Seq::empty(), 0, nothing_yet());
    assert(Seq::<EntryView>::empty() + every(children, Seq::empty()) == every(
        children,
        Seq::empty(),
    ));
}

proof fn lemma_complete(
    children: Seq<ChildView>,
    relative: Seq<char>,
    depth: nat,
    listing: Listing,
)
    requires
        listing.entries.len() <= MAX_FILES,
    ensures
        ({
            let all = walked(children, relative, depth, listing);
            &&& listing.truncated ==> all.truncated
            &&& !all.truncated ==> all.entries == listing.entries + every(children, relative)
            &&& all.entries.len() <= MAX_FILES
        }),
    decreases MAX_DEPTH + 1 - depth, 1nat, 0nat,
{
    if depth <= MAX_DEPTH {
        lemma_complete_upto(children, children.len(), relative, depth, listing);
        assert(children.take(children.len() as int) == children);
    }
}

proof fn lemma_complete_upto(
    children: Seq<ChildView>,
    n: nat,
    relative: Seq<char>,
    depth: nat,
    listing: Listing,
)
    requires
        n <= children.len(),
        depth <= MAX_DEPTH,
        listing.entries.len() <= MAX_FILES,
    ensures
        ({
            let all = walked_upto(children, n, relative, depth, listing);
            &&& listing.truncated ==> all.truncated
            &&& !all.truncated ==> all.entries == listing.entries + every(
                children.take(n as int),
                relative,
            )
            &&& all.entries.len() <= MAX_FILES
        }),
    decreases MAX_DEPTH + 1 - depth, 0nat, n,
{
    let first = children.take(n as int);
    if n == 0 {
        assert(listing.entries + every(first, relative) == listing.entries);
    } else {
        lemma_complete_upto(children, (n - 1) as nat, relative, depth, listing);
        let before = walked_upto(children, (n - 1) as nat, relative, depth, listing);
        assert(first.drop_last() == children.take(n - 1));
        assert(first[n - 1] == children[n - 1]);
        let earlier = every(first.drop_last(), relative);
        if before.entries.len() < MAX_FILES {
            match children[n - 1] {
                ChildView::File { name, bytes } => {
                    if is_sql(name) {
                        let e = entry(relative, name, bytes);
                        assert((listing.entries + earlier).push(e) == listing.entries + (earlier
                            + seq![e]));
                    } else {
                        assert(earlier + Seq::<EntryView>::empty() == earlier);
                    }
                },
                ChildView::Folder { name, children: inside } => {
                    if tree::passed_over(name) {
                        assert(earlier + Seq::<EntryView>::empty() == earlier);
                    } else {
                        lemma_complete(inside, tree::under(relative, name), depth + 1, before);
                        let more = every(inside, tree::under(relative, name));
                        assert((listing.entries + earlier) + more == listing.entries + (earlier
                            + more));
                    }
                },
            }
        }
    }
}

// ---------------------------------------------------------------------- resolving

/// Whether a path names a file with the extension.
pub open spec fn names_sql(path: Seq<char>, windows: bool) -> bool {
    match paths::file_name(path, windows) {
        Some(name) => is_sql(name),
        None => false,
    }
}

/// Why a path from a client is refused, if it is: anything that is not a plain relative
/// `.sql` path.
pub open spec fn refused(relative: Seq<char>, windows: bool) -> Option<Seq<char>> {
    if !paths::plain(relative, windows) {
        Some("`"@ + relative + "` must be a plain relative path inside the workspace"@)
    } else if !names_sql(relative, windows) {
        Some("`"@ + relative + "` is not a .sql file"@)
    } else {
        None
    }
}

/// Whether a path from a client may be looked for at all.
pub fn check(relative: &str, windows: bool) -> (r: Result<(), Error>)
    ensures
        match r {
            Ok(_) => refused(relative@, windows) is None,
            Err(e) => refused(relative@, windows) is Some && e@ == ErrorView::BadRequest(
                refused(relative@, windows)->0,
            ),
        },
{
    let sql = match paths::file_name_of(relative, windows) {
        Some(name) => named_sql(&name),
        None => false,
    };
    if !paths::is_plain(relative, windows) {
        Err(
            Error::BadRequest(
                "`".to_owned().concat(relative).concat(
                    "` must be a plain relative path inside the workspace",
                ),
            ),
        )
    } else if !sql {
        Err(Error::BadRequest("`".to_owned().concat(relative).concat("` is not a .sql file")))
    } else {
        Ok(())
    }
}

/// The place whose real location says whether a file is inside the root: the file, or,
/// for one that does not exist yet, the directory it would be in.
pub open spec fn anchored(
    root: Seq<char>,
    relative: Seq<char>,
    must_exist: bool,
    windows: bool,
) -> Seq<char> {
    let names = paths::names(paths::parts(relative, windows));
    if must_exist {
        paths::join(root, relative, windows)
    } else if names.len() <= 1 {
        root
    } else {
        paths::join(root, text::join(names.drop_last(), paths::mark(windows)), windows)
    }
}

pub fn anchor(root: &str, relative: &str, must_exist: bool, windows: bool) -> (r: String)
    ensures
        r@ == anchored(root@, relative@, must_exist, windows),
{
    if must_exist {
        return paths::joined(root, relative, windows);
    }
    let mut names = paths::names_of(relative, windows);
    let ghost all = text::views(names@);
    if names.len() <= 1 {
        root.to_owned()
    } else {
        names.pop();
        assert(text::views(names@) == all.drop_last());
        let mark = if windows {
            "\\"
        } else {
            "/"
        };
        paths::joined(root, &text::joined(&names, mark), windows)
    }
}

/// Whether a file sits under the root: its anchor does, and so does the file itself where
/// there is one.
pub open spec fn sits_under(
    root: Seq<char>,
    actual: Seq<char>,
    itself: Option<Seq<char>>,
    windows: bool,
) -> bool {
    &&& paths::within(root, actual, windows)
    &&& itself matches Some(file) ==> paths::within(root, file, windows)
}

/// A path from a client inside `root`, given where its anchor really is, and where the file
/// itself is if it exists. The text alone would miss a link that points outside.
pub fn resolve(
    root: &str,
    relative: &str,
    actual: &str,
    itself: Option<&str>,
    windows: bool,
) -> (r: Result<String, Error>)
    ensures
        match r {
            Ok(path) => refused(relative@, windows) is None && sits_under(
                root@,
                actual@,
                text::opt_str(itself),
                windows,
            ) && path@ == paths::join(root@, relative@, windows),
            Err(e) => match refused(relative@, windows) {
                Some(why) => e@ == ErrorView::BadRequest(why),
                None => !sits_under(root@, actual@, text::opt_str(itself), windows) && e@
                    == ErrorView::BadRequest("`"@ + relative@ + "` escapes the workspace"@),
            },
        },
{
    match check(relative, windows) {
        Err(e) => Err(e),
        Ok(_) => {
            let linked_out = match itself {
                Some(file) => !paths::is_within(root, file, windows),
                None => false,
            };
            if paths::is_within(root, actual, windows) && !linked_out {
                Ok(paths::joined(root, relative, windows))
            } else {
                Err(
                    Error::BadRequest(
                        "`".to_owned().concat(relative).concat("` escapes the workspace"),
                    ),
                )
            }
        },
    }
}

/// A path that is allowed has no part that could leave the root: the parts of it are
/// names, so it neither starts elsewhere nor climbs.
pub proof fn law_an_allowed_path_cannot_climb(relative: Seq<char>, windows: bool, i: int)
    requires
        refused(relative, windows) is None,
        0 <= i < paths::parts(relative, windows).len(),
    ensures
        paths::parts(relative, windows)[i] is Name,
        names_sql(relative, windows),
{
}

/// A file of an open folder can be opened: where no link leads elsewhere, a path that is
/// allowed is found under the root, whichever way the platform writes paths.
pub proof fn law_an_allowed_file_is_found(root: Seq<char>, relative: Seq<char>, windows: bool)
    requires
        refused(relative, windows) is None,
        paths::settled(root, windows),
    ensures
        ({
            let file = paths::join(root, relative, windows);
            &&& sits_under(root, file, Some(file), windows)
            &&& paths::file_name(file, windows) == paths::file_name(relative, windows)
        }),
{
    paths::law_a_plain_path_stays_below_its_root(root, relative, windows);
    let all = paths::parts(paths::join(root, relative, windows), windows);
    assert(all.last() == paths::parts(relative, windows).last());
}

/// Without a leading byte-order mark.
pub open spec fn without_mark(s: Seq<char>) -> Seq<char> {
    if s.len() > 0 && s[0] == '\u{feff}' {
        s.skip(1)
    } else {
        s
    }
}

/// Drop a leading byte-order mark. Left in place it becomes an invisible first character
/// of the first statement, which engines reject.
pub fn strip_bom(text: String) -> (r: String)
    ensures
        r@ == without_mark(text@),
{
    let v = text::chars_of(&text);
    if v.len() > 0 && v[0] == '\u{feff}' {
        text::slice(&v, 1, v.len())
    } else {
        text
    }
}

// -------------------------------------------------------------------------- roots

/// `~` alone, and `~` before a separator, stand for the home directory. `~alice` is
/// somebody else's and is left alone.
pub open spec fn expanded(path: Seq<char>, home: Option<Seq<char>>, windows: bool) -> Seq<char> {
    match home {
        Some(home) => if path == "~"@ || path == "~/"@ || path == "~\\"@ {
            home
        } else if text::starts_with(path, "~/"@) || text::starts_with(path, "~\\"@) {
            paths::join(home, path.skip(2), windows)
        } else {
            path
        },
        None => path,
    }
}

pub fn expand_home(path: &str, home: Option<&str>, windows: bool) -> (r: String)
    ensures
        r@ == expanded(path@, text::opt_str(home), windows),
{
    match home {
        Some(home) => {
            proof {
                reveal_strlit("~/");
                reveal_strlit("~\\");
            }
            if text::same(path, "~") || text::same(path, "~/") || text::same(path, "~\\") {
                home.to_owned()
            } else if text::begins(path, "~/") || text::begins(path, "~\\") {
                let v = text::chars_of(path);
                let rest = text::slice(&v, 2, v.len());
                assert(rest@ == path@.skip(2));
                paths::joined(home, &rest, windows)
            } else {
                path.to_owned()
            }
        },
        None => path.to_owned(),
    }
}

/// Whether a path says by itself where it is: from the root, or on Windows from a drive or
/// a share.
pub open spec fn absolute(path: Seq<char>, windows: bool) -> bool {
    paths::has_root(path, windows) && (windows ==> paths::lead(path, windows) is Some)
}

/// A path that needs a folder to be relative to: neither absolute nor under the home
/// directory.
pub open spec fn relative(path: Seq<char>, windows: bool) -> bool {
    !absolute(path, windows) && path != "~"@ && !text::starts_with(path, "~/"@)
        && !text::starts_with(path, "~\\"@)
}

pub fn is_relative(path: &str, windows: bool) -> (r: bool)
    ensures
        r == relative(path@, windows),
{
    let absolute = paths::is_absolute(path, windows);
    !absolute && !text::same(path, "~") && !text::begins(path, "~/") && !text::begins(
        path,
        "~\\",
    )
}

/// The plain form of a Windows path that names a drive the verbatim way. A path of any
/// other shape is left alone.
pub open spec fn simplified(path: Seq<char>, windows: bool) -> Seq<char> {
    match text::after_prefix(path, "\\\\?\\"@) {
        Some(rest) => if windows && text::bytes_len(rest.take(1)) == 1 && rest.len() > 1 && rest[1]
            == ':' && !text::starts_with(rest, "UNC\\"@) {
            rest
        } else {
            path
        },
        None => path,
    }
}

/// A verbatim path is a poor working directory and reads badly.
pub fn simplify(path: String, windows: bool) -> (r: String)
    ensures
        r@ == simplified(path@, windows),
{
    match text::strip_prefix(&path, "\\\\?\\") {
        Some(rest) => {
            let v = text::chars_of(&rest);
            proof {
                if v@.len() > 0 {
                    reveal_with_fuel(text::bytes_len, 2);
                    assert(rest@.take(1) == seq![rest@[0]]);
                    assert(seq![rest@[0]].drop_first() == Seq::<char>::empty());
                    assert(seq![rest@[0]].drop_last() == Seq::<char>::empty());
                }
            }
            if windows && v.len() > 1 && text::char_width(v[0]) == 1 && v[1] == ':'
                && !text::begins(&rest, "UNC\\") {
                rest
            } else {
                path
            }
        },
        None => path,
    }
}

/// What to say of a root that could not be resolved.
pub fn cannot_open(path: &str, why: &str) -> (e: Error)
    ensures
        e@ == ErrorView::BadRequest("cannot open `"@ + path@ + "`: "@ + why@),
{
    Error::BadRequest("cannot open `".to_owned().concat(path).concat("`: ").concat(why))
}

/// The path a person typed, as one that is there: what it came to once `~` was expanded and
/// links were followed, or why it did not.
pub fn resolve_root(path: &str, found: Result<String, String>, windows: bool) -> (r: Result<
    String,
    Error,
>)
    ensures
        match found {
            Ok(root) => r matches Ok(plain) && plain@ == simplified(root@, windows),
            Err(why) => r matches Err(e) && e@ == ErrorView::BadRequest(
                "cannot open `"@ + path@ + "`: "@ + why@,
            ),
        },
{
    match found {
        Ok(root) => Ok(simplify(root, windows)),
        Err(why) => Err(cannot_open(path, &why)),
    }
}

/// Accept a folder as the root: `root` is what `path` resolved to.
pub fn open(path: &str, root: String, is_dir: bool) -> (r: Result<String, Error>)
    ensures
        match r {
            Ok(accepted) => is_dir && accepted@ == root@,
            Err(e) => !is_dir && e@ == ErrorView::BadRequest(
                "`"@ + path@ + "` is not a directory"@,
            ),
        },
{
    if is_dir {
        Ok(root)
    } else {
        Err(Error::BadRequest("`".to_owned().concat(path).concat("` is not a directory")))
    }
}

/// A file is refused exactly where its path leaves the workspace or it is not SQL.
pub proof fn law_a_path_is_refused_only_for_a_reason(path: Seq<char>, windows: bool)
    ensures
        refused(path, windows) is None <==> paths::plain(path, windows) && names_sql(
            path,
            windows,
        ),
{
}

/// A byte-order mark in front is no part of the text, and nothing else is taken from it.
pub proof fn law_only_the_mark_is_dropped(s: Seq<char>)
    ensures
        without_mark(seq!['\u{feff}'] + s) == s,
        s.len() == 0 || s[0] != '\u{feff}' ==> without_mark(s) == s,
{
    assert((seq!['\u{feff}'] + s).skip(1) == s);
}

/// A tilde in front is the home folder, where there is one, and any other path is itself.
pub proof fn law_a_tilde_is_the_home_folder(
    rest: Seq<char>,
    home: Seq<char>,
    other: Seq<char>,
    windows: bool,
)
    requires
        rest.len() > 0,
        other.len() > 0 ==> other[0] != '~',
    ensures
        expanded("~"@, Some(home), windows) == home,
        expanded("~/"@ + rest, Some(home), windows) == paths::join(home, rest, windows),
        expanded(other, Some(home), windows) == other,
        expanded("~/"@ + rest, None, windows) == "~/"@ + rest,
{
    reveal_strlit("~");
    reveal_strlit("~/");
    reveal_strlit("~\\");
    let path = "~/"@ + rest;
    assert(path.take(2) == "~/"@);
    assert(path.skip(2) == rest);
    assert(path.len() > 2);
    if text::starts_with(other, "~/"@) {
        assert(other.take(2)[0] == other[0]);
    }
    if text::starts_with(other, "~\\"@) {
        assert(other.take(2)[0] == other[0]);
    }
}

/// What lies less deep comes first, and the rest goes by the letters of the path.
pub proof fn law_what_lies_less_deep_comes_first(a: EntryView, b: EntryView)
    ensures
        text::count(a.path, '/') < text::count(b.path, '/') ==> goes_first(a, b) && !goes_first(
            b,
            a,
        ),
        text::count(a.path, '/') == text::count(b.path, '/') ==> (goes_first(a, b)
            <==> table::before(a.path, b.path)),
{
}

/// A file of the workspace is the one its path names below the root, and is refused where it
/// is not SQL, not plain, or turns out to lie elsewhere.
pub proof fn law_a_file_is_the_one_its_path_names(
    root: &str,
    path: &str,
    actual: &str,
    itself: Option<&str>,
    windows: bool,
    r: Result<String, Error>,
)
    requires
        call_ensures(resolve, (root, path, actual, itself, windows), r),
    ensures
        r matches Ok(file) ==> file@ == paths::join(root@, path@, windows),
        r is Ok <==> paths::plain(path@, windows) && names_sql(path@, windows) && sits_under(
            root@,
            actual@,
            text::opt_str(itself),
            windows,
        ),
{
}

} // verus!
