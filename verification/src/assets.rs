//! The web UI, compiled into the binary: which file a request means, and when it has not
//! changed.

use crate::text;
use vstd::prelude::*;
use vstd::string::*;

verus! {

/// One of the two places files are embedded from.
pub enum Asset {
    /// A file of the user interface.
    Page(String),
    /// A brand asset, which the installers share.
    Logo(String),
}

/// The path of a request, without its leading slashes; the root is the front page.
pub open spec fn asked_for(path: Seq<char>) -> Seq<char> {
    let name = text::strip_start(path, '/');
    if name.len() == 0 {
        "index.html"@
    } else {
        name
    }
}

/// The path of the file that a request means.
pub fn path_of(path: &str) -> (r: String)
    ensures
        r@ == asked_for(path@),
{
    let name = text::stripped_start(path, '/');
    if name.as_str().is_empty() {
        "index.html".to_owned()
    } else {
        name
    }
}

/// Where that file is embedded.
pub fn place(path: &str) -> (r: Asset)
    ensures
        match (r, text::after_prefix(asked_for(path@), "logo/"@)) {
            (Asset::Logo(name), Some(rest)) => name@ == rest,
            (Asset::Page(name), None) => name@ == asked_for(path@),
            _ => false,
        },
{
    let name = path_of(path);
    match text::strip_prefix(&name, "logo/") {
        Some(rest) => Asset::Logo(rest),
        None => Asset::Page(name),
    }
}

/// How many bytes of a file's hash tell its versions apart.
pub const TAG_BYTES: usize = 8;

/// The validator of a file, over its own hash: without one a browser guesses how long a
/// response stays fresh, and runs yesterday's page against today's API.
pub open spec fn tag_of(hash: Seq<u8>) -> Seq<char> {
    "\""@ + text::hex(hash.take(TAG_BYTES as int)) + "\""@
}

pub fn etag(hash: &Vec<u8>) -> (r: String)
    requires
        hash.len() >= TAG_BYTES,
    ensures
        r@ == tag_of(hash@),
{
    let mut first: Vec<u8> = Vec::new();
    let mut i: usize = 0;
    assert(first@ =~= hash@.take(0));
    while i < TAG_BYTES
        invariant
            i <= TAG_BYTES <= hash.len(),
            first@ == hash@.take(i as int),
        decreases TAG_BYTES - i,
    {
        first.push(hash[i]);
        i = i + 1;
        assert(first@ =~= hash@.take(i as int));
    }
    "\"".to_owned().concat(&text::hex_of(&first)).concat("\"")
}

/// Whether one of the validators a browser holds is this one.
pub open spec fn holds_tag(header: Seq<char>, tag: Seq<char>) -> bool {
    exists|i: int|
        0 <= i < text::split(header, ',').len() && text::trim(
            #[trigger] text::split(header, ',')[i],
        ) == tag
}

/// Whether a file is unchanged for a browser that holds those validators.
pub fn unchanged(if_none_match: Option<&str>, tag: &str) -> (r: bool)
    ensures
        r == (text::opt_str(if_none_match) matches Some(header) && holds_tag(header, tag@)),
{
    let header = match if_none_match {
        Some(header) => header,
        None => return false,
    };
    let parts = text::split_all(header, ',');
    let ghost all = text::views(parts@);
    let mut i: usize = 0;
    while i < parts.len()
        invariant
            i <= parts.len(),
            all == text::views(parts@),
            all == text::split(header@, ','),
            text::opt_str(if_none_match) == Some(header@),
            forall|j: int| 0 <= j < i ==> text::trim(#[trigger] all[j]) != tag@,
        decreases parts.len() - i,
    {
        assert(all[i as int] == parts@[i as int]@);
        if text::same(&text::trimmed(&parts[i]), tag) {
            assert(holds_tag(header@, tag@));
            return true;
        }
        i = i + 1;
    }
    false
}

/// The media type of a path, by its extension.
pub uninterp spec fn guessed(path: Seq<char>) -> Seq<char>;

/// `mime_guess::from_path` and its first guess, or `application/octet-stream`: a function
/// of the path, by a table of extensions.
#[verifier::external_body]
fn guess(path: &str) -> (r: String)
    ensures
        r@ == guessed(path@),
{
    mime_guess::from_path(path).first_or_octet_stream().as_ref().to_owned()
}

/// The media type a request is answered with.
pub fn media_type(path: &str) -> (r: String)
    ensures
        r@ == guessed(asked_for(path@)),
{
    guess(&path_of(path))
}

/// An address without a name is the index, and any other is the file of that name, whatever
/// slashes are in front of it.
pub proof fn law_an_address_asks_for_its_file(name: Seq<char>, slashes: nat)
    requires
        name.len() > 0 ==> name[0] != '/',
    ensures
        asked_for(text::repeat('/', slashes) + name) == if name.len() == 0 {
            "index.html"@
        } else {
            name
        },
{
    let path = text::repeat('/', slashes) + name;
    let f = text::exactly('/');
    assert forall|i: int| 0 <= i < slashes implies f(#[trigger] path[i]) by {
        assert(path[i] == text::repeat('/', slashes)[i]);
    }
    text::lemma_run_is(path, f, slashes as int);
    assert(path.skip(slashes as int) == name);
}

/// A tag is the front of the file's hash, in quotes, so two files whose hashes begin
/// differently have different tags.
pub proof fn law_a_tag_is_the_front_of_the_hash(hash: Seq<u8>)
    requires
        hash.len() >= TAG_BYTES,
    ensures
        tag_of(hash).len() == 2 + 2 * TAG_BYTES,
        forall|i: int|
            0 <= i < TAG_BYTES ==> text::spells_byte(
                tag_of(hash)[1 + 2 * i],
                tag_of(hash)[2 + 2 * i],
                #[trigger] hash[i],
            ),
{
    reveal_strlit("\"");
    let front = hash.take(TAG_BYTES as int);
    text::law_hexadecimal_spells_the_bytes(front);
    let h = text::hex(front);
    assert forall|i: int| 0 <= i < TAG_BYTES implies text::spells_byte(
        tag_of(hash)[1 + 2 * i],
        tag_of(hash)[2 + 2 * i],
        #[trigger] hash[i],
    ) by {
        assert(front[i] == hash[i]);
        assert(tag_of(hash)[1 + 2 * i] == h[2 * i]);
        assert(tag_of(hash)[2 + 2 * i] == h[2 * i + 1]);
    }
}

} // verus!
