//! Paths, as text, in the way of the platform they are on.
//!
//! Elsewhere a path is names with `/` between them. On Windows `\` separates too, and a
//! path may begin with a drive, a share, a device or the verbatim mark.
//!
//! What a path *says* is decided here; whether anything is there is somebody
//! else's question.

use crate::text;
use vstd::prelude::*;
use vstd::string::*;

verus! {

/// One part of a path.
#[derive(Debug, Clone, PartialEq, Eq)]
pub enum Part {
    /// `C:` on Windows, the letter in lower case: `C:` and `c:` are one drive.
    Drive(char),
    /// `\\server\share` on Windows.
    Share(String, String),
    /// `\\.\name` on Windows.
    Device(String),
    /// `\\?\` on Windows, with what it names: a drive, a share or anything else. After it
    /// only `\` separates.
    Verbatim(String),
    /// The separator an absolute path begins with.
    Root,
    /// A leading `.`; anywhere else it means nothing and is dropped.
    Here,
    /// `..`
    Up,
    /// A name.
    Name(String),
}

/// The value of a [`Part`].
pub enum PartView {
    Drive(char),
    Share(Seq<char>, Seq<char>),
    Device(Seq<char>),
    Verbatim(Seq<char>),
    Root,
    Here,
    Up,
    Name(Seq<char>),
}

impl View for Part {
    type V = PartView;

    open spec fn view(&self) -> PartView {
        match *self {
            Part::Drive(letter) => PartView::Drive(letter),
            Part::Share(server, share) => PartView::Share(server@, share@),
            Part::Device(t) => PartView::Device(t@),
            Part::Verbatim(t) => PartView::Verbatim(t@),
            Part::Root => PartView::Root,
            Part::Here => PartView::Here,
            Part::Up => PartView::Up,
            Part::Name(t) => PartView::Name(t@),
        }
    }
}

pub open spec fn part_views(v: Seq<Part>) -> Seq<PartView> {
    Seq::new(v.len(), |i: int| v[i]@)
}

/// A path with every separator written `/`.
pub open spec fn forward(path: Seq<char>, windows: bool) -> Seq<char> {
    Seq::new(
        path.len(),
        |i: int|
            if windows && path[i] == '\\' {
                '/'
            } else {
                path[i]
            },
    )
}

fn forwarded(path: &Vec<char>, windows: bool) -> (r: Vec<char>)
    ensures
        r@ == forward(path@, windows),
{
    let mut out: Vec<char> = Vec::new();
    let mut i: usize = 0;
    while i < path.len()
        invariant
            i <= path.len(),
            out@ == forward(path@, windows).take(i as int),
        decreases path.len() - i,
    {
        if windows && path[i] == '\\' {
            out.push('/');
        } else {
            out.push(path[i]);
        }
        i = i + 1;
        assert(out@ == forward(path@, windows).take(i as int));
    }
    assert(forward(path@, windows).take(i as int) == forward(path@, windows));
    out
}

/// A letter and a colon.
pub open spec fn at_drive(s: Seq<char>) -> bool {
    s.len() >= 2 && text::is_ascii_letter(s[0]) && s[1] == ':'
}

/// How much of what follows the verbatim mark belongs to it: a share with its server, or
/// the first name.
pub open spec fn verbatim_len(s: Seq<char>) -> nat {
    if text::starts_with(s, "UNC\\"@) {
        let a = 4 + text::position(s.skip(4), '\\');
        let b = text::position(s.skip(a as int + 1), '\\');
        if a < s.len() && b > 0 {
            a + 1 + b
        } else {
            a
        }
    } else if at_drive(s) && (s.len() == 2 || forward(s, true)[2] == '/') {
        2
    } else {
        text::position(s, '\\')
    }
}

/// What the verbatim mark names.
pub open spec fn verbatim_text(s: Seq<char>) -> Seq<char> {
    let t = s.take(verbatim_len(s) as int);
    if at_drive(t) && t.len() == 2 {
        seq![text::lower_char(t[0]), ':']
    } else {
        t
    }
}

/// What a path on Windows begins with before its first separator or name, and how long
/// that is.
pub open spec fn windows_lead(path: Seq<char>) -> Option<(PartView, nat)> {
    let s = forward(path, true);
    if text::starts_with(path, "\\\\?\\"@) {
        let rest = path.skip(4);
        Some((PartView::Verbatim(verbatim_text(rest)), 4 + verbatim_len(rest)))
    } else if text::starts_with(s, "//./"@) {
        let n = 4 + text::position(s.skip(4), '/');
        Some((PartView::Device(s.subrange(4, n as int)), n))
    } else if text::starts_with(s, "//"@) {
        let a = 2 + text::position(s.skip(2), '/');
        let b = a + 1 + text::position(s.skip(a as int + 1), '/');
        if a > 2 && a < s.len() && b > a + 1 {
            Some(
                (PartView::Share(s.subrange(2, a as int), s.subrange(a as int + 1, b as int)), b),
            )
        } else {
            None
        }
    } else if at_drive(path) {
        Some((PartView::Drive(text::lower_char(path[0])), 2))
    } else {
        None
    }
}

/// What stands before the first separator or name, where the platform knows such a thing.
pub open spec fn lead(path: Seq<char>, windows: bool) -> Option<(PartView, nat)> {
    if windows {
        windows_lead(path)
    } else {
        None
    }
}

pub open spec fn lead_len(path: Seq<char>, windows: bool) -> nat {
    match lead(path, windows) {
        Some((_, n)) => n,
        None => 0,
    }
}

pub open spec fn is_verbatim(path: Seq<char>, windows: bool) -> bool {
    lead(path, windows) matches Some((PartView::Verbatim(_), _))
}

/// What follows the lead, with one separator for all.
pub open spec fn body(path: Seq<char>, windows: bool) -> Seq<char> {
    if is_verbatim(path, windows) {
        path.skip(lead_len(path, windows) as int)
    } else {
        forward(path, windows).skip(lead_len(path, windows) as int)
    }
}

/// That separator.
pub open spec fn separator(path: Seq<char>, windows: bool) -> char {
    if is_verbatim(path, windows) {
        '\\'
    } else {
        '/'
    }
}

/// Whether a path begins at a root: after a drive there may be none, and any other lead
/// has one even unwritten.
pub open spec fn has_root(path: Seq<char>, windows: bool) -> bool {
    let b = body(path, windows);
    (b.len() > 0 && b[0] == separator(path, windows)) || (lead(path, windows) matches Some(
        (part, _),
    ) && !(part is Drive))
}

/// What stands before the names: the lead and the root.
pub open spec fn beginning(path: Seq<char>, windows: bool) -> Seq<PartView> {
    (match lead(path, windows) {
        Some((part, _)) => seq![part],
        None => Seq::empty(),
    }) + (if has_root(path, windows) {
        seq![PartView::Root]
    } else {
        Seq::empty()
    })
}

/// What a piece between separators contributes: nothing where it is empty, or a `.` that
/// is not to be kept.
pub open spec fn part_of(piece: Seq<char>, keep: bool) -> Seq<PartView> {
    if piece.len() == 0 {
        Seq::empty()
    } else if piece == "."@ {
        if keep {
            seq![PartView::Here]
        } else {
            Seq::empty()
        }
    } else if piece == ".."@ {
        seq![PartView::Up]
    } else {
        seq![PartView::Name(piece)]
    }
}

/// What the first `n` pieces contribute. A `.` is kept where it is the first of them, and
/// everywhere in a verbatim path.
pub open spec fn parts_upto(pieces: Seq<Seq<char>>, n: nat, verbatim: bool) -> Seq<PartView>
    decreases n,
{
    if n == 0 {
        Seq::empty()
    } else {
        parts_upto(pieces, (n - 1) as nat, verbatim) + part_of(
            pieces[n - 1],
            n == 1 || verbatim,
        )
    }
}

/// The parts of a path.
pub open spec fn parts(path: Seq<char>, windows: bool) -> Seq<PartView> {
    let pieces = text::split(body(path, windows), separator(path, windows));
    beginning(path, windows) + parts_upto(pieces, pieces.len(), is_verbatim(path, windows))
}

fn verbatim_of(v: &Vec<char>) -> (r: (String, usize))
    requires
        text::starts_with(v@, "\\\\?\\"@),
    ensures
        r.0@ == verbatim_text(v@.skip(4)),
        r.1 == 4 + verbatim_len(v@.skip(4)),
        r.1 <= v@.len(),
{
    let ghost s = v@.skip(4);
    proof {
        reveal_strlit("\\\\?\\");
        reveal_strlit("UNC\\");
    }
    let drive = v.len() >= 6 && text::ascii_letter(v[4]) && v[5] == ':';
    assert(drive == at_drive(s));
    let n: usize = if text::stands_at(v, 4, "UNC\\") {
        assert(s.skip(4) == v@.skip(8));
        let a = text::position_from(v, 8, '\\');
        if 8 + a < v.len() {
            assert(s.skip(a as int + 5) == v@.skip(a as int + 9));
            let b = text::position_from(v, 9 + a, '\\');
            if b > 0 {
                9 + a + b
            } else {
                8 + a
            }
        } else {
            8 + a
        }
    } else if drive && (v.len() == 6 || v[6] == '/' || v[6] == '\\') {
        6
    } else {
        4 + text::position_from(v, 4, '\\')
    };
    assert(n == 4 + verbatim_len(s));
    let ghost t = s.take(verbatim_len(s) as int);
    if n == 6 && drive {
        let mut r = String::new();
        r.push(text::lowered_char(v[4]));
        r.push(':');
        assert(r@ == verbatim_text(s));
        (r, n)
    } else {
        let r = text::slice(v, 4, n);
        assert(r@ == t);
        (r, n)
    }
}

fn lead_of(v: &Vec<char>, windows: bool) -> (r: Option<(Part, usize)>)
    ensures
        match r {
            Some((part, n)) => lead(v@, windows) == Some((part@, n as nat)) && n <= v@.len(),
            None => lead(v@, windows) is None,
        },
{
    if !windows {
        return None;
    }
    let w = forwarded(v, true);
    let ghost s = w@;
    proof {
        reveal_strlit("//./");
        reveal_strlit("//");
        assert(v@.skip(0) == v@);
        assert(s.skip(0) == s);
    }
    if text::stands_at(v, 0, "\\\\?\\") {
        let (t, n) = verbatim_of(v);
        Some((Part::Verbatim(t), n))
    } else if text::stands_at(&w, 0, "//./") {
        let n = 4 + text::position_from(&w, 4, '/');
        Some((Part::Device(text::slice(&w, 4, n)), n))
    } else if text::stands_at(&w, 0, "//") {
        let a = 2 + text::position_from(&w, 2, '/');
        if a == 2 || a >= w.len() {
            return None;
        }
        let b = a + 1 + text::position_from(&w, a + 1, '/');
        if b == a + 1 {
            return None;
        }
        Some((Part::Share(text::slice(&w, 2, a), text::slice(&w, a + 1, b)), b))
    } else if v.len() >= 2 && text::ascii_letter(v[0]) && v[1] == ':' {
        Some((Part::Drive(text::lowered_char(v[0])), 2))
    } else {
        None
    }
}

/// Whether a path is verbatim, and how long its lead is.
fn lead_measure(path: &str, windows: bool) -> (r: (bool, usize))
    ensures
        r.0 == is_verbatim(path@, windows),
        r.1 == lead_len(path@, windows),
        r.1 <= path@.len(),
{
    let v = text::chars_of(path);
    match lead_of(&v, windows) {
        Some((Part::Verbatim(_), n)) => (true, n),
        Some((_, n)) => (false, n),
        None => (false, 0),
    }
}

/// Whether a path says by itself where it is: from a root, and on Windows from the root of
/// a drive or the like.
pub fn is_absolute(path: &str, windows: bool) -> (r: bool)
    ensures
        r == (has_root(path@, windows) && (windows ==> lead(path@, windows) is Some)),
{
    let v = text::chars_of(path);
    match lead_of(&v, windows) {
        Some((Part::Drive(_), n)) => n < v.len() && (v[n] == '/' || v[n] == '\\'),
        Some(_) => true,
        None => !windows && v.len() > 0 && v[0] == '/',
    }
}

pub fn parts_of(path: &str, windows: bool) -> (r: Vec<Part>)
    ensures
        part_views(r@) == parts(path@, windows),
{
    let v = text::chars_of(path);
    let mut out: Vec<Part> = Vec::new();
    let mut verbatim = false;
    let mut drive = false;
    let mut from: usize = 0;
    let mut led = false;
    if let Some((part, n)) = lead_of(&v, windows) {
        match &part {
            Part::Verbatim(_) => {
                verbatim = true;
            },
            Part::Drive(_) => {
                drive = true;
            },
            _ => {},
        }
        led = true;
        from = n;
        out.push(part);
    }
    assert(verbatim == is_verbatim(path@, windows));
    assert(from == lead_len(path@, windows));
    let ghost b = body(path@, windows);
    let separator = if verbatim {
        '\\'
    } else {
        '/'
    };
    let rest = if verbatim {
        text::slice(&v, from, v.len())
    } else {
        let w = forwarded(&v, windows);
        text::slice(&w, from, w.len())
    };
    assert(rest@ == b);
    let rooted = {
        let first = text::chars_of(&rest);
        (first.len() > 0 && first[0] == separator) || (led && !drive)
    };
    if rooted {
        out.push(Part::Root);
    }
    let ghost head = beginning(path@, windows);
    assert(part_views(out@) == head);
    let pieces = text::split_all(&rest, separator);
    let ghost all = text::views(pieces@);
    assert(head + parts_upto(all, 0, verbatim) == head);
    let mut i: usize = 0;
    while i < pieces.len()
        invariant
            i <= pieces.len(),
            all == text::views(pieces@),
            part_views(out@) == head + parts_upto(all, i as nat, verbatim),
        decreases pieces.len() - i,
    {
        let piece = pieces[i].as_str();
        let ghost before = part_views(out@);
        let ghost more = part_of(piece@, i == 0 || verbatim);
        if piece.is_empty() {
        } else if text::same(piece, ".") {
            if i == 0 || verbatim {
                out.push(Part::Here);
            }
        } else if text::same(piece, "..") {
            out.push(Part::Up);
        } else {
            out.push(Part::Name(piece.to_owned()));
        }
        assert(part_views(out@) == before + more);
        assert(before + more == head + (parts_upto(all, i as nat, verbatim) + more));
        i = i + 1;
    }
    out
}

/// The name a list of parts ends with, if it ends with one.
pub open spec fn last_name(parts: Seq<PartView>) -> Option<Seq<char>> {
    if parts.len() == 0 {
        None
    } else {
        match parts.last() {
            PartView::Name(t) => Some(t),
            _ => None,
        }
    }
}

/// The last part of a path, where that is a name.
pub open spec fn file_name(path: Seq<char>, windows: bool) -> Option<Seq<char>> {
    last_name(parts(path, windows))
}

/// The name of the directory a path is in, where it has one.
pub open spec fn parent_name(path: Seq<char>, windows: bool) -> Option<Seq<char>> {
    let all = parts(path, windows);
    if all.len() == 0 {
        None
    } else {
        last_name(all.drop_last())
    }
}

fn name_at(parts: &Vec<Part>, len: usize) -> (r: Option<String>)
    requires
        len <= parts.len(),
    ensures
        text::opt(r) == last_name(part_views(parts@).take(len as int)),
{
    if len == 0 {
        return None;
    }
    assert(part_views(parts@).take(len as int).last() == parts@[len - 1]@);
    match &parts[len - 1] {
        Part::Name(t) => Some(t.clone()),
        _ => None,
    }
}

pub fn file_name_of(path: &str, windows: bool) -> (r: Option<String>)
    ensures
        text::opt(r) == file_name(path@, windows),
{
    let parts = parts_of(path, windows);
    assert(part_views(parts@).take(parts@.len() as int) == part_views(parts@));
    name_at(&parts, parts.len())
}

pub fn parent_name_of(path: &str, windows: bool) -> (r: Option<String>)
    ensures
        text::opt(r) == parent_name(path@, windows),
{
    let parts = parts_of(path, windows);
    if parts.len() == 0 {
        return None;
    }
    assert(part_views(parts@).take(parts@.len() - 1) == part_views(parts@).drop_last());
    name_at(&parts, parts.len() - 1)
}

/// A file name in two: what stands before its last dot, and what after. A name
/// whose only dot leads it is all stem.
pub open spec fn stem_and_extension(name: Seq<char>) -> (Seq<char>, Option<Seq<char>>) {
    match text::rsplit_once(name, '.') {
        Some((stem, extension)) => if stem.len() == 0 {
            (name, None)
        } else {
            (stem, Some(extension))
        },
        None => (name, None),
    }
}

/// The extension of the file a path names.
pub open spec fn extension(path: Seq<char>, windows: bool) -> Option<Seq<char>> {
    match file_name(path, windows) {
        Some(name) => stem_and_extension(name).1,
        None => None,
    }
}

/// The name of the file a path names, without its extension.
pub open spec fn stem(path: Seq<char>, windows: bool) -> Option<Seq<char>> {
    match file_name(path, windows) {
        Some(name) => Some(stem_and_extension(name).0),
        None => None,
    }
}

pub fn name_extension(name: &str) -> (r: Option<String>)
    ensures
        text::opt(r) == stem_and_extension(name@).1,
{
    match text::split_last(name, '.') {
        None => None,
        Some((stem, extension)) => if stem.as_str().is_empty() {
            None
        } else {
            Some(extension)
        },
    }
}

pub fn extension_of(path: &str, windows: bool) -> (r: Option<String>)
    ensures
        text::opt(r) == extension(path@, windows),
{
    match file_name_of(path, windows) {
        None => None,
        Some(name) => name_extension(&name),
    }
}

pub fn stem_of(path: &str, windows: bool) -> (r: Option<String>)
    ensures
        text::opt(r) == stem(path@, windows),
{
    match file_name_of(path, windows) {
        None => None,
        Some(name) => match text::split_last(&name, '.') {
            None => Some(name),
            Some((stem, _)) => if stem.as_str().is_empty() {
                Some(name)
            } else {
                Some(stem)
            },
        },
    }
}

/// A path made of names alone: it cannot begin anywhere but where it is put, and
/// it cannot climb.
pub open spec fn plain(path: Seq<char>, windows: bool) -> bool {
    forall|i: int|
        0 <= i < parts(path, windows).len() ==> (#[trigger] parts(path, windows)[i]) is Name
}

pub fn is_plain(path: &str, windows: bool) -> (r: bool)
    ensures
        r == plain(path@, windows),
{
    let v = parts_of(path, windows);
    let ghost all = part_views(v@);
    let mut i: usize = 0;
    while i < v.len()
        invariant
            i <= v.len(),
            all == part_views(v@),
            all == parts(path@, windows),
            forall|j: int| 0 <= j < i ==> (#[trigger] all[j]) is Name,
        decreases v.len() - i,
    {
        match &v[i] {
            Part::Name(_) => {},
            _ => {
                assert(!(all[i as int] is Name));
                return false;
            },
        }
        i = i + 1;
    }
    true
}

/// A part as it is written between separators.
pub open spec fn word_of(part: PartView) -> Seq<char> {
    match part {
        PartView::Name(t) => t,
        PartView::Up => ".."@,
        PartView::Here => "."@,
        _ => Seq::empty(),
    }
}

pub open spec fn words_of(parts: Seq<PartView>) -> Seq<Seq<char>> {
    Seq::new(parts.len(), |i: int| word_of(parts[i]))
}

/// The parts of a verbatim path with one more put on. Such a path is read as it stands, so
/// what `.` and `..` mean is settled here.
pub open spec fn put_on(parts: Seq<PartView>, part: PartView) -> Seq<PartView> {
    match part {
        PartView::Root => parts.take(1).push(PartView::Root),
        PartView::Up => if parts.len() > 0 && parts.last() is Name {
            parts.drop_last()
        } else {
            parts
        },
        PartView::Name(_) => parts.push(part),
        _ => parts,
    }
}

pub open spec fn all_put_on(parts: Seq<PartView>, more: Seq<PartView>) -> Seq<PartView>
    decreases more.len(),
{
    if more.len() == 0 {
        parts
    } else {
        put_on(all_put_on(parts, more.drop_last()), more.last())
    }
}

/// `child` under a verbatim `root`.
pub open spec fn verbatim_join(root: Seq<char>, child: Seq<char>) -> Seq<char> {
    let all = all_put_on(parts(root, true), parts(child, true));
    root.take(lead_len(root, true) as int) + "\\"@ + text::join(
        words_of(all.skip(2)),
        "\\"@,
    )
}

/// Whether a separator ends a path.
pub open spec fn ends_open(path: Seq<char>, windows: bool) -> bool {
    path.len() > 0 && forward(path, windows).last() == '/'
}

/// The mark that goes between a folder and what is in it.
pub open spec fn mark(windows: bool) -> Seq<char> {
    if windows {
        "\\"@
    } else {
        "/"@
    }
}

/// `child`, under `root`: a separator goes between them unless there is one, or `root` is
/// a bare drive. A child with a lead replaces the root, and one that begins at a root
/// replaces all of it but its lead.
pub open spec fn join(root: Seq<char>, child: Seq<char>, windows: bool) -> Seq<char> {
    if lead(child, windows) is Some {
        child
    } else if is_verbatim(root, windows) && child.len() > 0 {
        verbatim_join(root, child)
    } else if has_root(child, windows) {
        root.take(lead_len(root, windows) as int) + child
    } else if root.len() == 0 || ends_open(root, windows) || (lead(root, windows) matches Some(
        (PartView::Drive(_), n),
    ) && n == root.len()) {
        root + child
    } else {
        root + mark(windows) + child
    }
}

/// Everything after the first two parts, as it is written between separators.
fn words_after(parts: &Vec<Part>) -> (r: Vec<String>)
    requires
        parts.len() >= 2,
    ensures
        text::views(r@) == words_of(part_views(parts@).skip(2)),
{
    let ghost all = words_of(part_views(parts@).skip(2));
    let mut out: Vec<String> = Vec::new();
    let mut i: usize = 2;
    assert(text::views(out@) == all.take(0));
    while i < parts.len()
        invariant
            2 <= i <= parts.len(),
            all == words_of(part_views(parts@).skip(2)),
            text::views(out@) == all.take(i - 2),
        decreases parts.len() - i,
    {
        let ghost before = text::views(out@);
        let word = match &parts[i] {
            Part::Name(t) => t.clone(),
            Part::Up => "..".to_owned(),
            Part::Here => ".".to_owned(),
            _ => String::new(),
        };
        assert(part_views(parts@).skip(2)[i - 2] == parts@[i as int]@);
        assert(word@ == all[i - 2]);
        out.push(word);
        assert(text::views(out@) == before.push(word@));
        assert(all.take(i - 1) == all.take(i - 2).push(all[i - 2]));
        i = i + 1;
    }
    assert(all.take(i - 2) == all);
    out
}

fn verbatim_joined(root: &str, child: &str) -> (r: String)
    requires
        is_verbatim(root@, true),
    ensures
        r@ == verbatim_join(root@, child@),
{
    let mut all = parts_of(root, true);
    let more = parts_of(child, true);
    let ghost start = parts(root@, true);
    let ghost added = parts(child@, true);
    let mut i: usize = 0;
    proof {
        assert(start[0] is Verbatim && start[1] is Root);
        assert(start.len() >= 2);
        assert(part_views(all@)[0] == all@[0]@ && part_views(all@)[1] == all@[1]@);
        assert(added.take(0) == Seq::<PartView>::empty());
    }
    while i < more.len()
        invariant
            i <= more.len(),
            added == part_views(more@),
            part_views(all@) == all_put_on(start, added.take(i as int)),
            all.len() >= 2,
            all@[0]@ is Verbatim,
            all@[1]@ is Root,
        decreases more.len() - i,
    {
        let ghost before = part_views(all@);
        assert(added.take(i as int + 1).drop_last() == added.take(i as int));
        assert(added.take(i as int + 1).last() == more@[i as int]@);
        match &more[i] {
            Part::Root => {
                all.truncate(1);
                all.push(Part::Root);
                assert(part_views(all@) == before.take(1).push(PartView::Root));
            },
            Part::Up => {
                let named = match &all[all.len() - 1] {
                    Part::Name(_) => true,
                    _ => false,
                };
                assert(before.last() == all@.last()@);
                if named {
                    all.pop();
                    assert(part_views(all@) == before.drop_last());
                }
            },
            Part::Name(t) => {
                all.push(Part::Name(t.clone()));
                assert(part_views(all@) == before.push(PartView::Name(t@)));
            },
            _ => {},
        }
        i = i + 1;
    }
    assert(added.take(i as int) == added);
    let v = text::chars_of(root);
    let (_, n) = lead_measure(root, true);
    let head = text::slice(&v, 0, n);
    assert(head@ == root@.take(n as int));
    head.concat("\\").concat(&text::joined(&words_after(&all), "\\"))
}

pub fn joined(root: &str, child: &str, windows: bool) -> (r: String)
    ensures
        r@ == join(root@, child@, windows),
{
    let w = text::chars_of(child);
    if lead_of(&w, windows).is_some() {
        return child.to_owned();
    }
    let (verbatim, n) = lead_measure(root, windows);
    if verbatim && w.len() > 0 {
        return verbatim_joined(root, child);
    }
    let v = text::chars_of(root);
    if w.len() > 0 && (w[0] == '/' || (windows && w[0] == '\\')) {
        let head = text::slice(&v, 0, n);
        assert(head@ == root@.take(n as int));
        return head.concat(child);
    }
    let drive = match lead_of(&v, windows) {
        Some((Part::Drive(_), n)) => n == v.len(),
        _ => false,
    };
    let open = v.len() > 0 && (v[v.len() - 1] == '/' || (windows && v[v.len() - 1] == '\\'));
    if v.len() == 0 || open || drive {
        root.to_owned().concat(child)
    } else if windows {
        root.to_owned().concat("\\").concat(child)
    } else {
        root.to_owned().concat("/").concat(child)
    }
}

/// Whether `path` is `root` or lies below it, part by part: `/data2` is not below
/// `/data`.
pub open spec fn within(root: Seq<char>, path: Seq<char>, windows: bool) -> bool {
    let above = parts(root, windows);
    let all = parts(path, windows);
    above.len() <= all.len() && all.take(above.len() as int) == above
}

fn same_part(a: &Part, b: &Part) -> (r: bool)
    ensures
        r == (a@ == b@),
{
    match (a, b) {
        (Part::Drive(x), Part::Drive(y)) => *x == *y,
        (Part::Share(a, b), Part::Share(c, d)) => text::same(a, c) && text::same(b, d),
        (Part::Device(x), Part::Device(y)) => text::same(x, y),
        (Part::Verbatim(x), Part::Verbatim(y)) => text::same(x, y),
        (Part::Root, Part::Root) => true,
        (Part::Here, Part::Here) => true,
        (Part::Up, Part::Up) => true,
        (Part::Name(x), Part::Name(y)) => text::same(x, y),
        _ => false,
    }
}

pub fn is_within(root: &str, path: &str, windows: bool) -> (r: bool)
    ensures
        r == within(root@, path@, windows),
{
    let a = parts_of(root, windows);
    let b = parts_of(path, windows);
    if a.len() > b.len() {
        return false;
    }
    let ghost all = parts(root@, windows);
    let ghost other = parts(path@, windows);
    let mut i: usize = 0;
    while i < a.len()
        invariant
            i <= a.len() <= b.len(),
            all == part_views(a@),
            all == parts(root@, windows),
            other == part_views(b@),
            other == parts(path@, windows),
            forall|j: int| 0 <= j < i ==> (#[trigger] all[j]) == other[j],
        decreases a.len() - i,
    {
        if !same_part(&a[i], &b[i]) {
            assert(all[i as int] != other[i as int]);
            assert(other.take(all.len() as int)[i as int] == other[i as int]);
            return false;
        }
        i = i + 1;
    }
    assert(other.take(all.len() as int) == all);
    true
}

/// Whether two paths have the same parts.
pub fn is_same(a: &str, b: &str, windows: bool) -> (r: bool)
    ensures
        r == (parts(a@, windows) == parts(b@, windows)),
{
    let r = is_within(a, b, windows) && is_within(b, a, windows);
    proof {
        let x = parts(a@, windows);
        let y = parts(b@, windows);
        if r {
            assert(y.take(x.len() as int) == y);
        }
        if x == y {
            assert(y.take(x.len() as int) == y);
        }
    }
    r
}

/// The names in a path.
pub open spec fn names(parts: Seq<PartView>) -> Seq<Seq<char>>
    decreases parts.len(),
{
    if parts.len() == 0 {
        Seq::empty()
    } else {
        match parts.last() {
            PartView::Name(name) => names(parts.drop_last()).push(name),
            _ => names(parts.drop_last()),
        }
    }
}

pub fn names_of(path: &str, windows: bool) -> (r: Vec<String>)
    ensures
        text::views(r@) == names(parts(path@, windows)),
{
    let v = parts_of(path, windows);
    let ghost all = part_views(v@);
    let mut out: Vec<String> = Vec::new();
    let mut i: usize = 0;
    assert(text::views(out@) == names(all.take(0)));
    while i < v.len()
        invariant
            i <= v.len(),
            all == part_views(v@),
            text::views(out@) == names(all.take(i as int)),
        decreases v.len() - i,
    {
        let ghost before = text::views(out@);
        assert(all.take(i as int + 1).drop_last() == all.take(i as int));
        if let Part::Name(name) = &v[i] {
            out.push(name.clone());
            assert(text::views(out@) == before.push(name@));
        }
        i = i + 1;
    }
    assert(all.take(i as int) == all);
    out
}

// --------------------------------------------------------------------------- laws

proof fn lemma_position_kept(a: Seq<char>, b: Seq<char>, c: char)
    requires
        text::position(a, c) < a.len() || (b.len() > 0 && b[0] == c) || b.len() == 0,
    ensures
        text::position(a + b, c) == text::position(a, c),
{
    let f = text::other_than(c);
    text::lemma_run(a, f);
    let n = text::position(a, c) as int;
    let s = a + b;
    assert forall|i: int| 0 <= i < n implies f(#[trigger] s[i]) by {
        assert(s[i] == a[i]);
    }
    text::lemma_run_is(s, f, n);
}

proof fn lemma_split_concat(a: Seq<char>, b: Seq<char>, c: char)
    ensures
        text::split(a + seq![c] + b, c) == text::split(a, c) + text::split(b, c),
    decreases a.len(),
{
    let s = a + seq![c] + b;
    let n = text::position(a, c) as int;
    text::lemma_run(a, text::other_than(c));
    assert(s == a + (seq![c] + b));
    lemma_position_kept(a, seq![c] + b, c);
    if n < a.len() {
        let rest = a.skip(n + 1);
        lemma_split_concat(rest, b, c);
        assert(s.skip(n + 1) == rest + seq![c] + b);
        assert(s.take(n) == a.take(n));
        assert(seq![a.take(n)] + (text::split(rest, c) + text::split(b, c)) == (seq![a.take(n)]
            + text::split(rest, c)) + text::split(b, c));
    } else {
        assert(s.take(n) == a);
        assert(s.skip(n + 1) == b);
    }
}

proof fn lemma_parts_upto(p: Seq<Seq<char>>, q: Seq<Seq<char>>, k: nat, verbatim: bool)
    requires
        p.len() > 0,
        k <= q.len(),
        verbatim || q.len() == 0 || q[0] != "."@,
    ensures
        parts_upto(p + q, p.len() + k, verbatim) == parts_upto(p, p.len(), verbatim) + parts_upto(
            q,
            k,
            verbatim,
        ),
    decreases k,
{
    if k == 0 {
        lemma_parts_prefix(p, q, p.len(), verbatim);
        assert(parts_upto(p, p.len(), verbatim) + Seq::<PartView>::empty() == parts_upto(
            p,
            p.len(),
            verbatim,
        ));
    } else {
        lemma_parts_upto(p, q, (k - 1) as nat, verbatim);
        assert((p + q)[p.len() + k - 1] == q[k - 1]);
        let last = part_of(q[k - 1], k == 1 || verbatim);
        assert(part_of(q[k - 1], verbatim) == last);
        assert((parts_upto(p, p.len(), verbatim) + parts_upto(q, (k - 1) as nat, verbatim)) + last
            == parts_upto(p, p.len(), verbatim) + (parts_upto(q, (k - 1) as nat, verbatim)
            + last));
    }
}

proof fn lemma_parts_prefix(p: Seq<Seq<char>>, q: Seq<Seq<char>>, n: nat, verbatim: bool)
    requires
        n <= p.len(),
    ensures
        parts_upto(p + q, n, verbatim) == parts_upto(p, n, verbatim),
    decreases n,
{
    if n > 0 {
        lemma_parts_prefix(p, q, (n - 1) as nat, verbatim);
        assert((p + q)[n - 1] == p[n - 1]);
    }
}

/// The parts that the pieces of a text contribute.
spec fn pieces_of(s: Seq<char>, c: char, verbatim: bool) -> Seq<PartView> {
    let pieces = text::split(s, c);
    parts_upto(pieces, pieces.len(), verbatim)
}

proof fn lemma_split_some(s: Seq<char>, c: char)
    ensures
        text::split(s, c).len() > 0,
        text::split(s, c)[0] == s.take(text::position(s, c) as int),
{
    text::lemma_run(s, text::other_than(c));
    assert(text::position(s, c) == s.len() ==> s.take(s.len() as int) == s);
}

proof fn lemma_pieces_concat(x: Seq<char>, y: Seq<char>, c: char, verbatim: bool)
    requires
        verbatim || text::split(y, c)[0] != "."@,
    ensures
        pieces_of(x + seq![c] + y, c, verbatim) == pieces_of(x, c, verbatim) + pieces_of(
            y,
            c,
            verbatim,
        ),
{
    lemma_split_concat(x, y, c);
    lemma_split_some(x, c);
    lemma_split_some(y, c);
    lemma_parts_upto(
        text::split(x, c),
        text::split(y, c),
        text::split(y, c).len(),
        verbatim,
    );
}

proof fn lemma_no_pieces(c: char, verbatim: bool)
    ensures
        pieces_of(Seq::empty(), c, verbatim) == Seq::<PartView>::empty(),
        text::split(Seq::<char>::empty(), c)[0] != "."@,
{
    reveal_strlit(".");
    reveal_with_fuel(parts_upto, 2);
    let s = Seq::<char>::empty();
    assert(text::split(s, c) == seq![s]);
}

/// What a plain path is made of: nothing before its names.
proof fn lemma_plain(path: Seq<char>, windows: bool)
    requires
        plain(path, windows),
    ensures
        lead(path, windows) is None,
        !has_root(path, windows),
        parts(path, windows) == pieces_of(forward(path, windows), '/', false),
        text::split(forward(path, windows), '/')[0] != "."@,
        path.len() > 0 ==> forward(path, windows)[0] != '/',
{
    let all = parts(path, windows);
    let start = beginning(path, windows);
    if start.len() > 0 {
        assert(all[0] == start[0]);
        assert(all[0] is Name);
        let (part, n) = lead(path, windows)->0;
    }
    assert(start.len() == 0);
    let f = forward(path, windows);
    assert(f.skip(0) == f);
    assert(body(path, windows) == f);
    let pieces = text::split(f, '/');
    assert(all == parts_upto(pieces, pieces.len(), false));
    lemma_split_some(f, '/');
    if pieces[0] == "."@ {
        reveal_strlit(".");
        lemma_first_part(pieces, pieces.len());
        assert(all[0] is Here);
        assert(all[0] is Name);
    }
}

proof fn lemma_first_part(pieces: Seq<Seq<char>>, n: nat)
    requires
        0 < n <= pieces.len(),
        pieces[0] == "."@,
    ensures
        parts_upto(pieces, n, false).len() > 0,
        parts_upto(pieces, n, false)[0] is Here,
    decreases n,
{
    reveal_strlit(".");
    if n > 1 {
        lemma_first_part(pieces, (n - 1) as nat);
    } else {
        reveal_with_fuel(parts_upto, 2);
    }
}

/// A root whose lead is complete: whatever is put below it stays below it. On Windows
/// two separators with no share behind them, a device without a name and a verbatim share
/// without one would take the next name for the rest of the lead.
pub open spec fn settled(root: Seq<char>, windows: bool) -> bool {
    windows ==> match windows_lead(root) {
        Some((PartView::Verbatim(t), _)) => {
            &&& t != "UNC"@
            &&& text::starts_with(t, "UNC\\"@) ==> t.skip(4).contains('\\')
        },
        Some((PartView::Device(name), _)) => name.len() > 0,
        Some(_) => true,
        None => !text::starts_with(forward(root, true), "//"@),
    }
}

proof fn lemma_marks(s: Seq<char>)
    ensures
        text::starts_with(s, "//"@) == (s.len() >= 2 && s[0] == '/' && s[1] == '/'),
        text::starts_with(s, "//./"@) == (s.len() >= 4 && s[0] == '/' && s[1] == '/' && s[2] == '.'
            && s[3] == '/'),
        text::starts_with(s, "\\\\?\\"@) == (s.len() >= 4 && s[0] == '\\' && s[1] == '\\' && s[2]
            == '?' && s[3] == '\\'),
        text::starts_with(s, "UNC\\"@) == (s.len() >= 4 && s[0] == 'U' && s[1] == 'N' && s[2] == 'C'
            && s[3] == '\\'),
{
    reveal_strlit("//");
    reveal_strlit("//./");
    reveal_strlit("\\\\?\\");
    reveal_strlit("UNC\\");
    if s.len() >= 2 {
        let t = s.take(2);
        assert(t[0] == s[0] && t[1] == s[1]);
        assert(s[0] == '/' && s[1] == '/' ==> t == "//"@);
    }
    if s.len() >= 4 {
        let t = s.take(4);
        assert(t[0] == s[0] && t[1] == s[1] && t[2] == s[2] && t[3] == s[3]);
        assert(s[0] == '/' && s[1] == '/' && s[2] == '.' && s[3] == '/' ==> t == "//./"@);
        assert(s[0] == '\\' && s[1] == '\\' && s[2] == '?' && s[3] == '\\' ==> t == "\\\\?\\"@);
        assert(s[0] == 'U' && s[1] == 'N' && s[2] == 'C' && s[3] == '\\' ==> t == "UNC\\"@);
    }
}

/// What may follow a root without changing its lead: a separator after one that ends with
/// none, no separator after one that ends with one, and anything after a bare drive.
spec fn follows(root: Seq<char>, t: Seq<char>, windows: bool) -> bool {
    &&& root.len() > 0
    &&& t.len() > 0
    &&& forward(t, windows)[0] == '/' <==> !ends_open(root, windows)
}

spec fn bare_drive(root: Seq<char>, windows: bool) -> bool {
    lead(root, windows) matches Some((PartView::Drive(_), n)) && n == root.len()
}

proof fn lemma_lead_kept(root: Seq<char>, t: Seq<char>)
    requires
        settled(root, true),
        !is_verbatim(root, true),
        follows(root, t, true) || bare_drive(root, true),
    ensures
        windows_lead(root + t) == windows_lead(root),
{
    let all = root + t;
    let s = forward(root, true);
    let u = forward(t, true);
    let w = forward(all, true);
    assert(w == s + u);
    lemma_marks(root);
    lemma_marks(all);
    lemma_marks(s);
    lemma_marks(w);
    if root.len() >= 1 {
        assert(w[0] == s[0] && all[0] == root[0]);
    }
    if root.len() >= 2 {
        assert(w[1] == s[1] && all[1] == root[1]);
    } else if root.len() == 1 && t.len() > 0 {
        assert(w[1] == u[0] && all[1] == t[0]);
    }
    if text::starts_with(s, "//"@) {
        let a = 2 + text::position(s.skip(2), '/');
        assert(w.skip(2) == s.skip(2) + u);
        text::lemma_run(s.skip(2), text::other_than('/'));
        let b = a + 1 + text::position(s.skip(a as int + 1), '/');
        if text::starts_with(s, "//./"@) {
            text::lemma_run(s.skip(4), text::other_than('/'));
            let n = 4 + text::position(s.skip(4), '/');
            if n == s.len() {
                assert(s[n - 1] == s.skip(4)[n - 5]);
            }
            assert(w.skip(4) == s.skip(4) + u);
            lemma_position_kept(s.skip(4), u, '/');
            assert(w[2] == s[2] && w[3] == s[3]);
            assert(all[2] == root[2] && all[3] == root[3]);
            assert(w.subrange(4, n as int) == s.subrange(4, n as int));
        } else {
            assert(a > 2 && a < s.len() && b > a + 1);
            lemma_position_kept(s.skip(2), u, '/');
            let rest = s.skip(a as int + 1);
            text::lemma_run(rest, text::other_than('/'));
            if b == s.len() {
                assert(s[b - 1] == rest[b - a - 2]);
            }
            assert(w.skip(a as int + 1) == rest + u);
            lemma_position_kept(rest, u, '/');
            assert(s.len() >= 4);
            assert(w[2] == s[2] && w[3] == s[3]);
            assert(all[2] == root[2] && all[3] == root[3]);
            assert(w.subrange(2, a as int) == s.subrange(2, a as int));
            assert(w.subrange(a as int + 1, b as int) == s.subrange(a as int + 1, b as int));
        }
    }
}

proof fn lemma_lead_len(path: Seq<char>, windows: bool)
    ensures
        lead_len(path, windows) <= path.len(),
{
    if windows {
        let s = forward(path, true);
        lemma_marks(path);
        lemma_marks(s);
        if is_verbatim(path, windows) {
            lemma_verbatim_len(path.skip(4));
        } else if text::starts_with(s, "//./"@) {
            text::lemma_run(s.skip(4), text::other_than('/'));
        } else if text::starts_with(s, "//"@) {
            let a = 2 + text::position(s.skip(2), '/');
            text::lemma_run(s.skip(2), text::other_than('/'));
            if a < s.len() {
                text::lemma_run(s.skip(a as int + 1), text::other_than('/'));
            }
        }
    }
}

proof fn lemma_verbatim_len(s: Seq<char>)
    ensures
        verbatim_len(s) <= s.len(),
{
    lemma_marks(s);
    let f = text::other_than('\\');
    text::lemma_run(s, f);
    if text::starts_with(s, "UNC\\"@) {
        text::lemma_run(s.skip(4), f);
        let a = 4 + text::position(s.skip(4), '\\');
        if a < s.len() {
            text::lemma_run(s.skip(a as int + 1), f);
        }
    }
}

/// Below a root that is not verbatim, the parts of a plain path come after the root's.
#[verifier::spinoff_prover]
#[verifier::rlimit(40)]
proof fn lemma_joined(root: Seq<char>, path: Seq<char>, windows: bool)
    requires
        plain(path, windows),
        path.len() > 0,
        settled(root, windows),
        !is_verbatim(root, windows),
    ensures
        parts(join(root, path, windows), windows) == parts(root, windows) + parts(path, windows),
{
    let all = join(root, path, windows);
    let f = forward(path, windows);
    let b = body(root, windows);
    let n = lead_len(root, windows) as int;
    lemma_plain(path, windows);
    lemma_no_pieces('/', false);
    lemma_lead_len(root, windows);
    if root.len() == 0 {
        assert(all == path);
        assert(b == Seq::<char>::empty());
        lemma_marks(root);
        lemma_marks(forward(root, windows));
        assert(lead(root, windows) is None);
        assert(parts(root, windows) == Seq::<PartView>::empty());
    } else if ends_open(root, windows) || bare_drive(root, windows) {
        assert(all == root + path);
        if windows {
            lemma_lead_kept(root, path);
        }
        assert(forward(all, windows) == forward(root, windows) + f);
        assert(body(all, windows) == b + f);
        if bare_drive(root, windows) {
            assert(b == Seq::<char>::empty());
            assert(b + f == f);
            assert(beginning(all, windows) == beginning(root, windows));
            assert(parts(root, windows) == beginning(root, windows));
        } else {
            lemma_open_body(root, windows);
            let x = b.drop_last();
            assert(b == x + seq!['/'] + Seq::<char>::empty());
            assert(b + f == x + seq!['/'] + f);
            lemma_pieces_concat(x, Seq::empty(), '/', false);
            lemma_pieces_concat(x, f, '/', false);
            assert(body(all, windows)[0] == b[0]);
            assert(beginning(all, windows) == beginning(root, windows));
            assert(pieces_of(b, '/', false) == pieces_of(x, '/', false));
            assert(parts(all, windows) == parts(root, windows) + parts(path, windows));
        }
    } else {
        reveal_strlit("/");
        reveal_strlit("\\");
        let t = mark(windows) + path;
        assert(all == root + t);
        assert(forward(t, windows) == seq!['/'] + f);
        if windows {
            lemma_lead_kept(root, t);
        }
        assert(forward(all, windows) == forward(root, windows) + forward(t, windows));
        assert(body(all, windows) == b + seq!['/'] + f);
        lemma_pieces_concat(b, f, '/', false);
        if b.len() > 0 {
            assert(body(all, windows)[0] == b[0]);
        }
        assert(beginning(all, windows) == beginning(root, windows));
        assert(parts(all, windows) == parts(root, windows) + parts(path, windows));
    }
}

/// A root that ends with a separator has it after its lead.
proof fn lemma_open_body(root: Seq<char>, windows: bool)
    requires
        ends_open(root, windows),
        settled(root, windows),
        !is_verbatim(root, windows),
    ensures
        body(root, windows).len() > 0,
        body(root, windows).last() == '/',
{
    lemma_lead_len(root, windows);
    let s = forward(root, windows);
    let n = lead_len(root, windows) as int;
    if windows && n == s.len() {
        lemma_marks(root);
        lemma_marks(s);
        if text::starts_with(s, "//./"@) {
            text::lemma_run(s.skip(4), text::other_than('/'));
            assert(s[n - 1] == s.skip(4)[n - 5]);
        } else if text::starts_with(s, "//"@) {
            let a = 2 + text::position(s.skip(2), '/');
            let rest = s.skip(a as int + 1);
            text::lemma_run(rest, text::other_than('/'));
            assert(s[n - 1] == rest[n - a - 2]);
        } else {
            assert(s[n - 1] == '/');
        }
    }
    assert(body(root, windows).last() == s.last());
}

proof fn lemma_verbatim_closed(r: Seq<char>)
    requires
        verbatim_text(r) != "UNC"@,
        text::starts_with(verbatim_text(r), "UNC\\"@) ==> verbatim_text(r).skip(4).contains('\\'),
    ensures
        verbatim_len(r + seq!['\\']) == verbatim_len(r),
{
    reveal_strlit("UNC");
    lemma_verbatim_len(r);
    let m = verbatim_len(r) as int;
    let t = r.take(m);
    let y = seq!['\\'];
    let s = r + y;
    let f = text::other_than('\\');
    lemma_marks(r);
    lemma_marks(t);
    lemma_marks(s);
    if text::starts_with(r, "UNC\\"@) {
        text::lemma_run(r.skip(4), f);
        let a = 4 + text::position(r.skip(4), '\\') as int;
        if m == a {
            assert(t.skip(4) == r.skip(4).take(a - 4));
            assert(verbatim_text(r) == t);
            let i = choose|i: int| 0 <= i < t.skip(4).len() && t.skip(4)[i] == '\\';
            assert(f(r.skip(4)[i]));
            assert(false);
        }
        assert(s.skip(4) == r.skip(4) + y);
        lemma_position_kept(r.skip(4), y, '\\');
        assert(s.skip(a + 1) == r.skip(a + 1) + y);
        lemma_position_kept(r.skip(a + 1), y, '\\');
    } else {
        if text::starts_with(s, "UNC\\"@) {
            assert(r.len() == 3);
            assert(r[0] == s[0] && r[1] == s[1] && r[2] == s[2]);
            assert(r == "UNC"@);
            text::lemma_run_is(r, f, 3);
            assert(t == r);
            assert(verbatim_text(r) == t);
        }
        if r.len() >= 2 {
            assert(s[0] == r[0] && s[1] == r[1]);
        } else if r.len() == 1 {
            assert(s[1] == '\\');
        }
        if r.len() > 2 {
            assert(s[2] == r[2]);
        }
        lemma_position_kept(r, y, '\\');
    }
}

/// An empty path adds a separator at most.
proof fn lemma_nothing_joined(root: Seq<char>, path: Seq<char>, windows: bool)
    requires
        path.len() == 0,
        settled(root, windows),
    ensures
        parts(join(root, path, windows), windows) == parts(root, windows) + parts(path, windows),
{
    let all = join(root, path, windows);
    let c = separator(root, windows);
    let v = is_verbatim(root, windows);
    let b = body(root, windows);
    reveal_strlit("/");
    reveal_strlit("\\");
    assert(path == Seq::<char>::empty());
    lemma_marks(path);
    lemma_marks(forward(path, windows));
    assert(lead(path, windows) is None);
    assert(forward(path, windows).skip(0) == path);
    lemma_no_pieces('/', false);
    lemma_no_pieces(c, v);
    assert(parts(path, windows) == Seq::<PartView>::empty());
    assert(parts(root, windows) + parts(path, windows) == parts(root, windows));
    lemma_lead_len(root, windows);
    if all != root {
        let t = mark(windows);
        assert(root + path == root);
        assert(all == root + t);
        assert(forward(t, windows) == seq!['/']);
        if v {
            let r = root.skip(4);
            let m = verbatim_len(r) as int;
            lemma_marks(root);
            lemma_marks(all);
            assert(all[0] == root[0] && all[1] == root[1] && all[2] == root[2] && all[3]
                == root[3]);
            lemma_verbatim_len(r);
            assert(t == seq!['\\']);
            lemma_verbatim_closed(r);
            assert(all.skip(4) == r + t);
            assert(all.skip(4).take(m) == r.take(m));
        } else if windows {
            lemma_lead_kept(root, t);
        }
        assert(lead(all, windows) == lead(root, windows));
        assert(forward(all, windows) == forward(root, windows) + forward(t, windows));
        assert(body(all, windows) == b + seq![c] + Seq::<char>::empty());
        lemma_pieces_concat(b, Seq::empty(), c, v);
        if b.len() > 0 {
            assert(body(all, windows)[0] == b[0]);
        }
        assert(beginning(all, windows) == beginning(root, windows));
        assert(parts(all, windows) == parts(root, windows));
    }
}

/// What the verbatim mark names stays what it is when a separator follows.
proof fn lemma_verbatim_kept(r: Seq<char>, y: Seq<char>)
    requires
        y.len() > 0,
        y[0] == '\\',
        verbatim_text(r) != "UNC"@,
        text::starts_with(verbatim_text(r), "UNC\\"@) ==> verbatim_text(r).skip(4).contains('\\'),
    ensures
        verbatim_len(r.take(verbatim_len(r) as int) + y) == verbatim_len(r),
{
    reveal_strlit("UNC");
    lemma_verbatim_len(r);
    let m = verbatim_len(r) as int;
    let t = r.take(m);
    let s = t + y;
    let f = text::other_than('\\');
    lemma_marks(r);
    lemma_marks(t);
    lemma_marks(s);
    if text::starts_with(r, "UNC\\"@) {
        text::lemma_run(r.skip(4), f);
        let a = 4 + text::position(r.skip(4), '\\') as int;
        if m == a {
            assert(t.skip(4) == r.skip(4).take(a - 4));
            assert(verbatim_text(r) == t);
            let i = choose|i: int| 0 <= i < t.skip(4).len() && t.skip(4)[i] == '\\';
            assert(f(r.skip(4)[i]));
            assert(false);
        }
        let b = text::position(r.skip(a + 1), '\\') as int;
        text::lemma_run(r.skip(a + 1), f);
        assert(m == a + 1 + b);
        assert forall|i: int| 0 <= i < a - 4 implies f(#[trigger] s.skip(4)[i]) by {
            assert(s.skip(4)[i] == r.skip(4)[i]);
        }
        assert(s.skip(4)[a - 4] == r.skip(4)[a - 4]);
        text::lemma_run_is(s.skip(4), f, a - 4);
        assert forall|i: int| 0 <= i < b implies f(#[trigger] s.skip(a + 1)[i]) by {
            assert(s.skip(a + 1)[i] == r.skip(a + 1)[i]);
        }
        assert(s.skip(a + 1)[b] == y[0]);
        text::lemma_run_is(s.skip(a + 1), f, b);
    } else if at_drive(r) && (r.len() == 2 || forward(r, true)[2] == '/') {
        assert(s[0] == r[0] && s[1] == r[1] && s[2] == y[0]);
    } else {
        text::lemma_run(r, f);
        assert forall|i: int| 0 <= i < m implies f(#[trigger] s[i]) && s[i] == r[i] by {
            assert(s[i] == r[i]);
        }
        assert(s[m] == y[0]);
        text::lemma_run_is(s, f, m);
        if text::starts_with(s, "UNC\\"@) {
            if m > 3 {
                assert(f(s[3]));
            }
            assert(m == 3);
            assert(t == "UNC"@);
            assert(verbatim_text(r) == t);
        }
        if at_drive(s) && (s.len() == 2 || forward(s, true)[2] == '/') {
            assert(m >= 2);
            if m > 2 {
                assert(f(s[2]));
                assert(s[2] == r[2]);
            }
            assert(false);
        }
    }
}

proof fn lemma_split_chars(s: Seq<char>, c: char)
    ensures
        forall|i: int, k: int|
            #![trigger text::split(s, c)[i][k]]
            0 <= i < text::split(s, c).len() && 0 <= k < text::split(s, c)[i].len()
                ==> text::split(s, c)[i][k] != c && s.contains(text::split(s, c)[i][k]),
    decreases s.len(),
{
    let f = text::other_than(c);
    let n = text::position(s, c) as int;
    let all = text::split(s, c);
    text::lemma_run(s, f);
    if n < s.len() {
        let rest = s.skip(n + 1);
        lemma_split_chars(rest, c);
        assert forall|i: int, k: int|
            #![trigger all[i][k]]
            0 <= i < all.len() && 0 <= k < all[i].len() implies all[i][k] != c && s.contains(
            all[i][k],
        ) by {
            if i == 0 {
                assert(all[0][k] == s[k]);
                assert(f(s[k]));
            } else {
                assert(all[i] == text::split(rest, c)[i - 1]);
                let x = text::split(rest, c)[i - 1][k];
                let j = choose|j: int| 0 <= j < rest.len() && rest[j] == x;
                assert(s[n + 1 + j] == x);
            }
        }
    } else {
        assert forall|i: int, k: int|
            #![trigger all[i][k]]
            0 <= i < all.len() && 0 <= k < all[i].len() implies all[i][k] != c && s.contains(
            all[i][k],
        ) by {
            assert(all[i] == s);
            assert(f(s[k]));
        }
    }
}

/// A part that is read back from the way it is written.
spec fn readable(part: PartView) -> bool {
    match part {
        PartView::Name(t) => t.len() > 0 && t != "."@ && t != ".."@ && !t.contains('\\'),
        PartView::Up | PartView::Here => true,
        _ => false,
    }
}

proof fn lemma_readable(pieces: Seq<Seq<char>>, n: nat, verbatim: bool)
    requires
        n <= pieces.len(),
        forall|i: int| 0 <= i < pieces.len() ==> !(#[trigger] pieces[i]).contains('\\'),
    ensures
        forall|i: int|
            0 <= i < parts_upto(pieces, n, verbatim).len() ==> readable(
                #[trigger] parts_upto(pieces, n, verbatim)[i],
            ),
    decreases n,
{
    if n > 0 {
        lemma_readable(pieces, (n - 1) as nat, verbatim);
        let before = parts_upto(pieces, (n - 1) as nat, verbatim);
        let all = parts_upto(pieces, n, verbatim);
        assert forall|i: int| 0 <= i < all.len() implies readable(#[trigger] all[i]) by {
            if i < before.len() {
                assert(all[i] == before[i]);
            } else {
                assert(!pieces[n - 1].contains('\\'));
                assert(all[i] == part_of(pieces[n - 1], n == 1 || verbatim)[i - before.len()]);
            }
        }
    }
}

proof fn lemma_word(part: PartView)
    requires
        readable(part),
    ensures
        pieces_of(word_of(part), '\\', true) == seq![part],
{
    reveal_strlit(".");
    reveal_strlit("..");
    reveal_with_fuel(parts_upto, 2);
    let w = word_of(part);
    let f = text::other_than('\\');
    assert forall|i: int| 0 <= i < w.len() implies f(#[trigger] w[i]) by {
        if w[i] == '\\' {
            assert(w.contains('\\'));
        }
    }
    text::lemma_run_is(w, f, w.len() as int);
    assert(text::split(w, '\\') == seq![w]);
    assert(parts_upto(seq![w], 1, true) == part_of(w, true));
}

proof fn lemma_words(all: Seq<PartView>)
    requires
        forall|i: int| 0 <= i < all.len() ==> readable(#[trigger] all[i]),
    ensures
        pieces_of(text::join(words_of(all), "\\"@), '\\', true) == all,
    decreases all.len(),
{
    reveal_strlit("\\");
    if all.len() == 0 {
        lemma_no_pieces('\\', true);
        assert(text::join(words_of(all), "\\"@) == Seq::<char>::empty());
    } else {
        lemma_word(all.last());
        let first = all.drop_last();
        let words = words_of(all);
        assert(words.last() == word_of(all.last()));
        if all.len() == 1 {
            assert(all == seq![all.last()]);
        } else {
            lemma_words(first);
            assert(words.drop_last() == words_of(first));
            assert("\\"@ == seq!['\\']);
            lemma_pieces_concat(
                text::join(words_of(first), "\\"@),
                word_of(all.last()),
                '\\',
                true,
            );
            assert(first + seq![all.last()] == all);
        }
    }
}

proof fn lemma_names_put_on(parts: Seq<PartView>, more: Seq<PartView>)
    requires
        forall|i: int| 0 <= i < more.len() ==> (#[trigger] more[i]) is Name,
    ensures
        all_put_on(parts, more) == parts + more,
    decreases more.len(),
{
    if more.len() > 0 {
        assert forall|i: int| 0 <= i < more.drop_last().len() implies (
        #[trigger] more.drop_last()[i]) is Name by {
            assert(more.drop_last()[i] == more[i]);
        }
        lemma_names_put_on(parts, more.drop_last());
        assert(more.last() is Name);
        assert((parts + more.drop_last()).push(more.last()) == parts + more);
    } else {
        assert(parts + more == parts);
    }
}

/// The same below a verbatim root.
proof fn lemma_verbatim_joined(root: Seq<char>, path: Seq<char>)
    requires
        plain(path, true),
        path.len() > 0,
        settled(root, true),
        is_verbatim(root, true),
    ensures
        parts(join(root, path, true), true) == parts(root, true) + parts(path, true),
{
    reveal_strlit("\\");
    lemma_plain(path, true);
    lemma_lead_len(root, true);
    let n = lead_len(root, true) as int;
    let r = root.skip(4);
    let m = verbatim_len(r) as int;
    let old_parts = parts(root, true);
    let more = parts(path, true);
    lemma_marks(root);
    assert(n == 4 + m);
    let pieces = text::split(body(root, true), '\\');
    let own = parts_upto(pieces, pieces.len(), true);
    let start = beginning(root, true);
    assert(start.len() == 2);
    assert(old_parts == start + own);
    lemma_names_put_on(old_parts, more);
    let tail = own + more;
    assert((old_parts + more).skip(2) == tail);
    assert forall|i: int| 0 <= i < tail.len() implies readable(#[trigger] tail[i]) by {
        lemma_split_chars(body(root, true), '\\');
        assert forall|j: int| 0 <= j < pieces.len() implies !(#[trigger] pieces[j]).contains(
            '\\',
        ) by {
            if pieces[j].contains('\\') {
                let k = choose|k: int| 0 <= k < pieces[j].len() && pieces[j][k] == '\\';
                assert(pieces[j][k] != '\\');
            }
        }
        lemma_readable(pieces, pieces.len(), true);
        let f = forward(path, true);
        let others = text::split(f, '/');
        lemma_split_chars(f, '/');
        assert forall|j: int| 0 <= j < others.len() implies !(#[trigger] others[j]).contains(
            '\\',
        ) by {
            if others[j].contains('\\') {
                let k = choose|k: int| 0 <= k < others[j].len() && others[j][k] == '\\';
                assert(f.contains(others[j][k]));
            }
        }
        lemma_readable(others, others.len(), false);
        if i < own.len() {
            assert(tail[i] == own[i]);
        } else {
            assert(tail[i] == more[i - own.len()]);
        }
    }
    lemma_words(tail);
    let x = text::join(words_of(tail), "\\"@);
    let y = seq!['\\'] + x;
    let all = join(root, path, true);
    assert(all == root.take(n) + y);
    lemma_verbatim_kept(r, y);
    assert(all.skip(4) == r.take(m) + y);
    lemma_marks(all);
    assert(all[0] == root[0] && all[1] == root[1] && all[2] == root[2] && all[3] == root[3]);
    assert(all.skip(4).take(m) == r.take(m));
    assert(windows_lead(all) == windows_lead(root));
    assert(body(all, true) == Seq::<char>::empty() + seq!['\\'] + x);
    lemma_no_pieces('\\', true);
    lemma_pieces_concat(Seq::empty(), x, '\\', true);
    assert(beginning(all, true) == start);
    assert(parts(all, true) == start + tail);
    assert(start + tail == old_parts + more);
}

/// A plain path put below a root lies below it, with the root's parts and then its own, on
/// either platform and however the root is written.
pub proof fn law_a_plain_path_stays_below_its_root(
    root: Seq<char>,
    path: Seq<char>,
    windows: bool,
)
    requires
        plain(path, windows),
        settled(root, windows),
    ensures
        parts(join(root, path, windows), windows) == parts(root, windows) + parts(path, windows),
        within(root, join(root, path, windows), windows),
{
    if path.len() == 0 {
        lemma_nothing_joined(root, path, windows);
    } else if is_verbatim(root, windows) {
        lemma_verbatim_joined(root, path);
    } else {
        lemma_joined(root, path, windows);
    }
    let above = parts(root, windows);
    let all = above + parts(path, windows);
    assert(all.take(above.len() as int) == above);
}

/// A name a file or a folder may have.
pub open spec fn is_name(name: Seq<char>) -> bool {
    name.len() > 0 && name != "."@ && name != ".."@ && !name.contains('/')
}

pub open spec fn as_names(names: Seq<Seq<char>>) -> Seq<PartView> {
    Seq::new(names.len(), |i: int| PartView::Name(names[i]))
}

proof fn lemma_only_names(pieces: Seq<Seq<char>>, n: nat)
    requires
        n <= pieces.len(),
        forall|i: int| 0 <= i < pieces.len() ==> is_name(#[trigger] pieces[i]),
    ensures
        parts_upto(pieces, n, false) == as_names(pieces.take(n as int)),
    decreases n,
{
    if n > 0 {
        lemma_only_names(pieces, (n - 1) as nat);
        let piece = pieces[n - 1];
        assert(is_name(piece));
        assert(as_names(pieces.take(n as int)) =~= as_names(pieces.take(n - 1)) + seq![
            PartView::Name(piece),
        ]);
    } else {
        assert(as_names(pieces.take(0)) =~= Seq::<PartView>::empty());
    }
}

/// A path with slashes between its names has exactly those parts, in order; a slash in front
/// is the root.
pub proof fn law_a_path_is_the_names_in_it(names: Seq<Seq<char>>)
    requires
        names.len() > 0,
        forall|i: int| 0 <= i < names.len() ==> is_name(#[trigger] names[i]),
    ensures
        parts(text::join(names, seq!['/']), false) == as_names(names),
        parts(seq!['/'] + text::join(names, seq!['/']), false) == seq![PartView::Root] + as_names(
            names,
        ),
{
    let s = text::join(names, seq!['/']);
    assert forall|i: int| 0 <= i < names.len() implies !(#[trigger] names[i]).contains('/') by {
        assert(is_name(names[i]));
    }
    text::law_what_is_joined_splits_again(names, '/');
    lemma_begins_with_name(names);
    assert(forward(s, false) =~= s);
    assert(body(s, false) =~= s);
    lemma_only_names(names, names.len());
    assert(names.take(names.len() as int) == names);
    assert(!has_root(s, false));
    assert(beginning(s, false) =~= Seq::<PartView>::empty());
    assert(parts(s, false) =~= as_names(names));
    let rooted = seq!['/'] + s;
    assert(forward(rooted, false) =~= rooted);
    assert(body(rooted, false) =~= rooted);
    assert(has_root(rooted, false));
    assert(beginning(rooted, false) =~= seq![PartView::Root]);
    let f = text::other_than('/');
    text::lemma_run_is(rooted, f, 0);
    assert(rooted.skip(1) == s);
    let none = Seq::<char>::empty();
    assert(rooted.take(0) == none);
    let pieces = seq![none] + names;
    assert(text::split(rooted, '/') == pieces);
    lemma_after_root(names, names.len());
    assert(parts(rooted, false) =~= seq![PartView::Root] + as_names(names));
}

proof fn lemma_after_root(names: Seq<Seq<char>>, n: nat)
    requires
        n <= names.len(),
        forall|i: int| 0 <= i < names.len() ==> is_name(#[trigger] names[i]),
    ensures
        parts_upto(seq![Seq::<char>::empty()] + names, n + 1, false) == as_names(
            names.take(n as int),
        ),
    decreases n,
{
    let pieces = seq![Seq::<char>::empty()] + names;
    if n == 0 {
        reveal_with_fuel(parts_upto, 2);
        assert(pieces[0] == Seq::<char>::empty());
        assert(as_names(names.take(0)) =~= Seq::<PartView>::empty());
        assert(parts_upto(pieces, 1, false) =~= Seq::<PartView>::empty());
    } else {
        lemma_after_root(names, (n - 1) as nat);
        let piece = names[n - 1];
        assert(pieces[n as int] == piece);
        assert(is_name(piece));
        assert(as_names(names.take(n as int)) =~= as_names(names.take(n - 1)) + seq![
            PartView::Name(piece),
        ]);
    }
}

proof fn lemma_begins_with_name(names: Seq<Seq<char>>)
    requires
        names.len() > 0,
        is_name(names[0]),
    ensures
        text::join(names, seq!['/']).len() > 0,
        text::join(names, seq!['/'])[0] != '/',
{
    let first = names[0];
    let rest = names.skip(1);
    assert(first.contains(first[0]));
    text::law_joining_goes_part_by_part(seq![first], rest, seq!['/']);
    assert(names == seq![first] + rest);
    assert(text::join(seq![first], seq!['/']) == first);
    if rest.len() == 0 {
        assert(names == seq![first]);
    }
}

/// A file's name is the last of its path, the folder's the one before, and an extension is
/// what stands behind the last dot of the name, unless nothing stands before it.
pub proof fn law_a_file_is_the_last_of_its_path(
    folders: Seq<Seq<char>>,
    first: Seq<char>,
    second: Seq<char>,
)
    requires
        forall|i: int| 0 <= i < folders.len() ==> is_name(#[trigger] folders[i]),
        folders.len() > 0,
        first.len() > 0,
        !first.contains('/'),
        second.len() > 0,
        !second.contains('/'),
        !second.contains('.'),
    ensures
        ({
            let name = first + seq!['.'] + second;
            let path = text::join(folders.push(name), seq!['/']);
            &&& file_name(path, false) == Some(name)
            &&& extension(path, false) == Some(second)
            &&& stem(path, false) == Some(first)
            &&& parent_name(path, false) == Some(folders.last())
        }),
        stem_and_extension(second) == (second, None::<Seq<char>>),
{
    let name = first + seq!['.'] + second;
    let all = folders.push(name);
    reveal_strlit(".");
    reveal_strlit("..");
    assert(name.len() >= 3);
    assert(!name.contains('/')) by {
        assert forall|i: int| 0 <= i < name.len() implies name[i] != '/' by {
            if i < first.len() {
                assert(first.contains(first[i]));
            } else if i > first.len() {
                assert(second.contains(second[i - first.len() - 1]));
            }
        }
    }
    assert(is_name(name));
    assert forall|i: int| 0 <= i < all.len() implies is_name(#[trigger] all[i]) by {
        if i < folders.len() {
            assert(is_name(folders[i]));
        }
    }
    law_a_path_is_the_names_in_it(all);
    let path = text::join(all, seq!['/']);
    assert(parts(path, false).last() == PartView::Name(name));
    assert(parts(path, false).drop_last().last() == PartView::Name(folders.last()));
    let f = text::other_than('.');
    assert forall|i: int| name.len() - second.len() <= i < name.len() implies f(
        #[trigger] name[i],
    ) by {
        assert(name[i] == second[i - first.len() - 1]);
        assert(second.contains(second[i - first.len() - 1]));
    }
    text::lemma_run_back_is(name, f, second.len() as int);
    assert(name.take(first.len() as int) == first);
    assert(name.skip(first.len() as int + 1) == second);
    text::law_a_cut_takes_one_character(second, '.');
}

/// One path lies within another exactly where it begins with its parts.
pub proof fn law_what_lies_within_begins_alike(
    root: Seq<char>,
    path: Seq<char>,
    windows: bool,
)
    ensures
        within(root, path, windows) <==> exists|rest: Seq<PartView>|
            parts(path, windows) == #[trigger] (parts(root, windows) + rest),
        within(root, root, windows),
{
    let above = parts(root, windows);
    let all = parts(path, windows);
    assert(above.take(above.len() as int) == above);
    if within(root, path, windows) {
        assert(all == above + all.skip(above.len() as int));
    }
    if exists|rest: Seq<PartView>| all == #[trigger] (above + rest) {
        let rest = choose|rest: Seq<PartView>| all == #[trigger] (above + rest);
        assert(all.take(above.len() as int) == above);
    }
}

} // verus!
