//! What a directory holds, as it was found.

use crate::order::Ranked;
use crate::table;
use crate::text;
use vstd::prelude::*;
use vstd::string::*;

verus! {

/// One entry of a directory, in the order the filesystem handed them over. A directory
/// that could not be read is one with no children.
#[derive(Debug)]
pub enum Child {
    File { name: String, bytes: u64 },
    Folder { name: String, children: Vec<Child> },
}

pub enum ChildView {
    File { name: Seq<char>, bytes: u64 },
    Folder { name: Seq<char>, children: Seq<ChildView> },
}

impl View for Child {
    type V = ChildView;

    open spec fn view(&self) -> ChildView {
        found(*self)
    }
}

pub open spec fn found(child: Child) -> ChildView
    decreases child,
{
    match child {
        Child::File { name, bytes } => ChildView::File { name: name@, bytes },
        Child::Folder { name, children } => ChildView::Folder {
            name: name@,
            children: Seq::new(
                children@.len(),
                |i: int|
                    if 0 <= i < children@.len() {
                        found(children@[i])
                    } else {
                        ChildView::File { name: Seq::empty(), bytes: 0 }
                    },
            ),
        },
    }
}

pub open spec fn seen(children: Seq<Child>) -> Seq<ChildView> {
    Seq::new(children.len(), |i: int| children[i]@)
}

pub proof fn lemma_folder(child: Child)
    requires
        child is Folder,
    ensures
        child@ == (ChildView::Folder {
            name: child->Folder_name@,
            children: seen(child->Folder_children@),
        }),
{
    assert(child@->Folder_children =~= seen(child->Folder_children@));
}

/// A folder inside another.
pub struct Branch<'a> {
    pub name: &'a String,
    pub children: &'a Vec<Child>,
}

impl<'a> Branch<'a> {
    pub open spec fn shape(self) -> (Seq<char>, Seq<ChildView>) {
        (self.name@, seen(self.children@))
    }
}

impl<'a> Ranked for Branch<'a> {
    open spec fn precedes(&self, other: &Self) -> bool {
        table::before(self.name@, other.name@)
    }

    fn ahead_of(&self, other: &Self) -> (r: bool) {
        table::comes_before(self.name, other.name)
    }

    proof fn lemma_asymmetric(a: &Self, b: &Self) {
        if table::before(a.name@, b.name@) && table::before(b.name@, a.name@) {
            table::lemma_before_transitive(a.name@, b.name@, a.name@);
            table::lemma_before_irreflexive(a.name@);
        }
    }

    proof fn lemma_steps(a: &Self, b: &Self, c: &Self) {
        table::lemma_not_before(a.name@, b.name@, c.name@);
    }
}

pub open spec fn by_folder() -> spec_fn((Seq<char>, Seq<ChildView>), (Seq<char>, Seq<ChildView>)) -> bool {
    |a: (Seq<char>, Seq<ChildView>), b: (Seq<char>, Seq<ChildView>)| table::before(a.0, b.0)
}

/// Directories that are never worth walking.
pub open spec fn noise() -> Seq<Seq<char>> {
    seq![
        ".git"@,
        ".svn"@,
        ".hg"@,
        "node_modules"@,
        "target"@,
        "__pycache__"@,
        ".venv"@,
        "venv"@,
        ".idea"@,
        ".vs"@,
    ]
}

/// Whether a directory of that name is passed over: a hidden one, or noise.
pub open spec fn passed_over(name: Seq<char>) -> bool {
    text::starts_with(name, "."@) || noise().contains(name)
}

/// Whether a walk leaves out a directory of that name.
pub fn is_passed_over(name: &str) -> (r: bool)
    ensures
        r == passed_over(name@),
{
    let hidden = text::begins(name, ".");
    let noisy = text::same(name, ".git") || text::same(name, ".svn") || text::same(name, ".hg")
        || text::same(name, "node_modules") || text::same(name, "target") || text::same(
        name,
        "__pycache__",
    ) || text::same(name, ".venv") || text::same(name, "venv") || text::same(name, ".idea")
        || text::same(name, ".vs");
    proof {
        let list = noise();
        if noisy {
            assert(list[0] == ".git"@ && list[1] == ".svn"@ && list[2] == ".hg"@);
            assert(list[3] == "node_modules"@ && list[4] == "target"@);
            assert(list[5] == "__pycache__"@ && list[6] == ".venv"@ && list[7] == "venv"@);
            assert(list[8] == ".idea"@ && list[9] == ".vs"@);
            assert(list.contains(name@));
        }
    }
    hidden || noisy
}

/// A path with forward slashes only, so that it reads the same on every platform.
pub open spec fn slashed(path: Seq<char>) -> Seq<char> {
    text::replace_char(path, '\\', "/"@)
}

pub fn slash(path: &str) -> (r: String)
    ensures
        r@ == slashed(path@),
{
    text::replaced(path, '\\', "/")
}

/// A name below a relative path.
pub open spec fn under(relative: Seq<char>, name: Seq<char>) -> Seq<char> {
    if relative.len() == 0 {
        name
    } else {
        relative + "/"@ + name
    }
}

pub fn below(relative: &str, name: &str) -> (r: String)
    ensures
        r@ == under(relative@, name@),
{
    if relative.is_empty() {
        name.to_owned()
    } else {
        relative.to_owned().concat("/").concat(name)
    }
}

/// Slashes lean one way in a path that is shown, and nothing else of it changes.
pub proof fn law_only_the_slashes_turn(path: Seq<char>)
    ensures
        slashed(path).len() == path.len(),
        forall|i: int|
            0 <= i < path.len() ==> #[trigger] slashed(path)[i] == if path[i] == '\\' {
                '/'
            } else {
                path[i]
            },
    decreases path.len(),
{
    reveal_strlit("/");
    if path.len() > 0 {
        law_only_the_slashes_turn(path.drop_last());
        let before = slashed(path.drop_last());
        assert forall|i: int| 0 <= i < path.len() implies #[trigger] slashed(path)[i]
            == if path[i] == '\\' {
            '/'
        } else {
            path[i]
        } by {
            if i < path.len() - 1 {
                assert(slashed(path)[i] == before[i]);
            }
        }
    }
}

/// What is below a folder has the folder in front of it, and what is below the root is
/// itself.
pub proof fn law_a_child_is_named_below_its_folder(relative: Seq<char>, name: Seq<char>)
    ensures
        under(Seq::empty(), name) == name,
        relative.len() > 0 ==> under(relative, name) == relative + seq!['/'] + name,
{
    reveal_strlit("/");
    assert("/"@ == seq!['/']);
}

/// A hidden folder is passed over, and so are the folders nobody keeps data in; no other is.
pub proof fn law_what_is_passed_over(name: Seq<char>)
    ensures
        passed_over(name) <==> (name.len() > 0 && name[0] == '.') || name == "node_modules"@ || name
            == "target"@ || name == "__pycache__"@ || name == "venv"@,
{
    reveal_strlit(".");
    reveal_strlit(".git");
    reveal_strlit(".svn");
    reveal_strlit(".hg");
    reveal_strlit(".venv");
    reveal_strlit(".idea");
    reveal_strlit(".vs");
    if name.len() > 0 && name[0] == '.' {
        assert(name.take(1) == "."@);
    }
    if text::starts_with(name, "."@) {
        assert(name[0] == name.take(1)[0]);
    }
    let all = noise();
    assert(all[3] == "node_modules"@ && all[4] == "target"@ && all[5] == "__pycache__"@ && all[7]
        == "venv"@);
    if all.contains(name) {
        let i = all.index_of(name);
        assert(all[i] == name);
    }
}

} // verus!
