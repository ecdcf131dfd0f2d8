//! Which shell a terminal runs, and where.

use crate::error::{Error, ErrorView};
use crate::text;
use vstd::prelude::*;
use vstd::string::*;

verus! {

/// How much is read from a shell at a time: enough that a large file does not turn into
/// thousands of frames.
pub const READ_CHUNK: usize = 8 * 1024;

/// What a request for a terminal says.
pub struct TerminalQuery {
    /// A label of a shell that is offered. Nothing means the default.
    pub shell: Option<String>,
}

/// What is said where the terminal is not offered.
pub const DISABLED: &'static str = "the terminal is disabled on a non-loopback bind; set ALKYON_TERMINAL=always to override";

/// Shells worth offering, best first.
pub open spec fn worth_offering(windows: bool) -> Seq<Seq<char>> {
    if windows {
        seq!["pwsh.exe"@, "powershell.exe"@, "cmd.exe"@, "bash.exe"@, "wsl.exe"@]
    } else {
        seq!["zsh"@, "bash"@, "fish"@, "sh"@]
    }
}

pub fn candidates(windows: bool) -> (r: Vec<String>)
    ensures
        text::views(r@) == worth_offering(windows),
{
    if windows {
        let r = vec![
            "pwsh.exe".to_owned(),
            "powershell.exe".to_owned(),
            "cmd.exe".to_owned(),
            "bash.exe".to_owned(),
            "wsl.exe".to_owned(),
        ];
        assert(text::views(r@) =~= worth_offering(true));
        r
    } else {
        let r = vec!["zsh".to_owned(), "bash".to_owned(), "fish".to_owned(), "sh".to_owned()];
        assert(text::views(r@) =~= worth_offering(false));
        r
    }
}

/// A shell that is offered: what it is called, and what runs.
pub struct Shell {
    pub label: String,
    pub program: String,
}

#[verifier::ext_equal]
pub struct ShellView {
    pub label: Seq<char>,
    pub program: Seq<char>,
}

impl View for Shell {
    type V = ShellView;

    open spec fn view(&self) -> ShellView {
        ShellView { label: self.label@, program: self.program@ }
    }
}

pub open spec fn shells_view(shells: Seq<Shell>) -> Seq<ShellView> {
    Seq::new(shells.len(), |i: int| shells[i]@)
}

/// A name without the extension of a program.
pub open spec fn label_of(name: Seq<char>) -> Seq<char>
    decreases name.len(),
{
    if name.len() >= 4 && name.skip(name.len() - 4) == seq!['.', 'e', 'x', 'e'] {
        label_of(name.take(name.len() - 4))
    } else {
        name
    }
}

fn label(name: &str) -> (r: String)
    ensures
        r@ == label_of(name@),
{
    let v = text::chars_of(name);
    let mut n: usize = v.len();
    assert(v@.take(n as int) =~= name@);
    while n >= 4 && v[n - 4] == '.' && v[n - 3] == 'e' && v[n - 2] == 'x' && v[n - 1] == 'e'
        invariant
            n <= v.len(),
            label_of(v@.take(n as int)) == label_of(name@),
        decreases n,
    {
        let ghost now = v@.take(n as int);
        assert(now.skip(n - 4) =~= seq!['.', 'e', 'x', 'e']);
        assert(now.take(n - 4) =~= v@.take(n - 4));
        n = n - 4;
    }
    proof {
        let now = v@.take(n as int);
        if n >= 4 && now.skip(n - 4) == seq!['.', 'e', 'x', 'e'] {
            let end = now.skip(n - 4);
            assert(end[0] == v@[n - 4] && end[1] == v@[n - 3] && end[2] == v@[n - 2] && end[3]
                == v@[n - 1]);
        }
    }
    let r = text::slice(&v, 0, n);
    assert(r@ =~= v@.take(n as int));
    r
}

pub open spec fn is_labelled(shells: Seq<ShellView>, label: Seq<char>) -> bool {
    exists|i: int| 0 <= i < shells.len() && (#[trigger] shells[i]).label == label
}

/// The shells to offer: the one that is forced, and then each candidate that was found,
/// unless its label is taken.
pub open spec fn offered(
    forced: Option<Seq<char>>,
    names: Seq<Seq<char>>,
    places: Seq<Option<Seq<char>>>,
) -> Seq<ShellView>
    decreases names.len(),
{
    if names.len() == 0 {
        match forced {
            Some(shell) => seq![ShellView { label: shell, program: shell }],
            None => Seq::empty(),
        }
    } else {
        let before = offered(forced, names.drop_last(), places.drop_last());
        match places.last() {
            Some(program) => if is_labelled(before, label_of(names.last())) {
                before
            } else {
                before.push(ShellView { label: label_of(names.last()), program })
            },
            None => before,
        }
    }
}

pub open spec fn places_view(places: Seq<Option<String>>) -> Seq<Option<Seq<char>>> {
    Seq::new(places.len(), |i: int| text::opt(places[i]))
}

fn labelled(shells: &Vec<Shell>, label: &str) -> (r: Option<usize>)
    ensures
        match r {
            Some(at) => at < shells.len() && shells@[at as int].label@ == label@ && forall|j: int|
                0 <= j < at ==> (#[trigger] shells@[j]).label@ != label@,
            None => forall|j: int|
                0 <= j < shells.len() ==> (#[trigger] shells@[j]).label@ != label@,
        },
        r is Some == is_labelled(shells_view(shells@), label@),
{
    let mut i: usize = 0;
    let ghost all = shells_view(shells@);
    while i < shells.len()
        invariant
            i <= shells.len(),
            all == shells_view(shells@),
            forall|j: int| 0 <= j < i ==> (#[trigger] shells@[j]).label@ != label@,
        decreases shells.len() - i,
    {
        if text::same(&shells[i].label, label) {
            assert(all[i as int].label == label@);
            return Some(i);
        }
        i = i + 1;
    }
    proof {
        if is_labelled(all, label@) {
            let j = choose|j: int| 0 <= j < all.len() && (#[trigger] all[j]).label == label@;
            assert(shells@[j].label@ == label@);
        }
    }
    None
}

/// The shells this machine has, given where each candidate was found. A forced one always
/// comes first and is the default.
pub fn available(forced: Option<&str>, names: &Vec<String>, places: &Vec<Option<String>>) -> (r: Vec<
    Shell,
>)
    requires
        names.len() == places.len(),
    ensures
        shells_view(r@) == offered(
            text::opt_str(forced),
            text::views(names@),
            places_view(places@),
        ),
{
    let ghost all = text::views(names@);
    let ghost found = places_view(places@);
    let mut out: Vec<Shell> = Vec::new();
    if let Some(shell) = forced {
        out.push(Shell { label: shell.to_owned(), program: shell.to_owned() });
    }
    let mut i: usize = 0;
    assert(shells_view(out@) =~= offered(text::opt_str(forced), all.take(0), found.take(0)));
    while i < names.len()
        invariant
            i <= names.len(),
            names.len() == places.len(),
            all == text::views(names@),
            found == places_view(places@),
            shells_view(out@) == offered(
                text::opt_str(forced),
                all.take(i as int),
                found.take(i as int),
            ),
        decreases names.len() - i,
    {
        let ghost before = shells_view(out@);
        assert(all.take(i as int + 1).drop_last() =~= all.take(i as int));
        assert(found.take(i as int + 1).drop_last() =~= found.take(i as int));
        assert(found.take(i as int + 1).last() == text::opt(places@[i as int]));
        if let Some(program) = &places[i] {
            let name = label(&names[i]);
            if labelled(&out, &name).is_none() {
                let shell = Shell { label: name, program: program.clone() };
                let ghost shown = shell@;
                out.push(shell);
                assert(shells_view(out@) =~= before.push(shown));
            }
        }
        i = i + 1;
    }
    assert(all.take(i as int) =~= all);
    assert(found.take(i as int) =~= found);
    out
}

/// The program of the first shell with that label.
pub open spec fn program_labelled(shells: Seq<ShellView>, label: Seq<char>) -> Option<Seq<char>>
    decreases shells.len(),
{
    if shells.len() == 0 {
        None
    } else if shells[0].label == label {
        Some(shells[0].program)
    } else {
        program_labelled(shells.skip(1), label)
    }
}

/// The program to run: that of the label asked for, and the default where none was asked
/// for or it is not on the list.
pub open spec fn program_for(requested: Option<Seq<char>>, shells: Seq<ShellView>) -> Option<
    Seq<char>,
> {
    let named = match requested {
        Some(label) => program_labelled(shells, label),
        None => None,
    };
    if named is Some {
        named
    } else if shells.len() > 0 {
        Some(shells[0].program)
    } else {
        None
    }
}

proof fn lemma_program_labelled(shells: Seq<ShellView>, label: Seq<char>, at: int)
    requires
        0 <= at <= shells.len(),
        at < shells.len() ==> shells[at].label == label,
        forall|j: int| 0 <= j < at ==> (#[trigger] shells[j]).label != label,
    ensures
        program_labelled(shells, label) == (if at < shells.len() {
            Some(shells[at].program)
        } else {
            None::<Seq<char>>
        }),
    decreases shells.len(),
{
    if at > 0 {
        let rest = shells.skip(1);
        assert(shells[0].label != label);
        assert forall|j: int| 0 <= j < at - 1 implies (#[trigger] rest[j]).label != label by {
            assert(rest[j] == shells[j + 1]);
        }
        lemma_program_labelled(rest, label, at - 1);
    }
}

/// The program to run. The picker sends back a label from the list and nothing else: an
/// arbitrary command from the client would be arbitrary execution, so a label that is not
/// on the list means the default.
pub fn shell(requested: Option<&str>, found: &Vec<Shell>) -> (r: Result<String, Error>)
    ensures
        match (r, program_for(text::opt_str(requested), shells_view(found@))) {
            (Ok(program), Some(chosen)) => program@ == chosen,
            (Err(e), None) => e@ == ErrorView::Terminal("no shell found on PATH"@),
            _ => false,
        },
{
    let ghost all = shells_view(found@);
    if let Some(name) = requested {
        match labelled(found, name) {
            Some(at) => {
                proof {
                    assert forall|j: int| 0 <= j < at implies (#[trigger] all[j]).label != name@ by {
                        assert(found@[j].label@ != name@);
                    }
                    lemma_program_labelled(all, name@, at as int);
                }
                return Ok(found[at].program.clone());
            },
            None => {
                proof {
                    assert forall|j: int| 0 <= j < all.len() implies (#[trigger] all[j]).label
                        != name@ by {
                        assert(found@[j].label@ != name@);
                    }
                    lemma_program_labelled(all, name@, all.len() as int);
                }
            },
        }
    }
    if found.len() > 0 {
        assert(all[0] == found@[0]@);
        Ok(found[0].program.clone())
    } else {
        Err(Error::Terminal("no shell found on PATH".to_owned()))
    }
}

/// Where a shell starts: in the open folder if there is one, which is the point of opening
/// it, and otherwise at home.
pub fn starts_in(workspace: Option<&str>, home: Option<&str>) -> (r: Option<String>)
    ensures
        text::opt(r) == (if workspace is Some {
            text::opt_str(workspace)
        } else {
            text::opt_str(home)
        }),
{
    match workspace {
        Some(root) => Some(root.to_owned()),
        None => text::own_opt(home),
    }
}

// --------------------------------------------------------------------------- laws

/// Whatever is asked for, what is run is one of the shells on the list.
pub proof fn law_only_a_listed_shell_is_run(requested: Option<Seq<char>>, shells: Seq<ShellView>)
    ensures
        program_for(requested, shells) matches Some(program) ==> exists|i: int|
            0 <= i < shells.len() && (#[trigger] shells[i]).program == program,
        shells.len() > 0 ==> program_for(requested, shells) is Some,
{
    if let Some(label) = requested {
        lemma_listed(shells, label);
    }
    if shells.len() > 0 {
        assert(shells[0].program == shells[0].program);
    }
}

proof fn lemma_listed(shells: Seq<ShellView>, label: Seq<char>)
    ensures
        program_labelled(shells, label) matches Some(program) ==> exists|i: int|
            0 <= i < shells.len() && (#[trigger] shells[i]).program == program,
    decreases shells.len(),
{
    if shells.len() > 0 {
        let rest = shells.skip(1);
        lemma_listed(rest, label);
        if shells[0].label == label {
            assert(shells[0].program == program_labelled(shells, label)->0);
        } else if let Some(program) = program_labelled(rest, label) {
            let i = choose|i: int| 0 <= i < rest.len() && (#[trigger] rest[i]).program == program;
            assert(shells[i + 1] == rest[i]);
        }
    }
}

/// No two shells that are offered have the same label, so a label means one program.
pub proof fn law_a_label_means_one_shell(
    forced: Option<Seq<char>>,
    names: Seq<Seq<char>>,
    places: Seq<Option<Seq<char>>>,
    i: int,
    j: int,
)
    requires
        0 <= i < j < offered(forced, names, places).len(),
    ensures
        offered(forced, names, places)[i].label != offered(forced, names, places)[j].label,
    decreases names.len(),
{
    if names.len() > 0 {
        let before = offered(forced, names.drop_last(), places.drop_last());
        let all = offered(forced, names, places);
        assert(all[i] == before[i]);
        if j < before.len() {
            law_a_label_means_one_shell(
                forced,
                names.drop_last(),
                places.drop_last(),
                i,
                j,
            );
        } else {
            assert(!is_labelled(before, all[j].label));
            assert(before[i].label == all[i].label);
        }
    }
}

/// A shell that is there is offered under its name, and none that is not.
pub proof fn law_every_shell_that_is_there_is_offered(
    forced: Option<Seq<char>>,
    names: Seq<Seq<char>>,
    places: Seq<Option<Seq<char>>>,
    i: int,
)
    requires
        names.len() == places.len(),
        0 <= i < names.len(),
        places[i] is Some,
    ensures
        is_labelled(offered(forced, names, places), label_of(names[i])),
    decreases names.len(),
{
    let before = offered(forced, names.drop_last(), places.drop_last());
    let all = offered(forced, names, places);
    if i == names.len() - 1 {
        if !is_labelled(before, label_of(names[i])) {
            assert(all[all.len() - 1].label == label_of(names[i]));
        } else {
            assert(all == before);
        }
    } else {
        law_every_shell_that_is_there_is_offered(forced, names.drop_last(), places.drop_last(), i);
        let k = choose|k: int|
            0 <= k < before.len() && (#[trigger] before[k]).label == label_of(names[i]);
        assert(all[k].label == label_of(names[i]));
    }
}

/// The shell that was asked for is the one that is run, where it is offered; the first one
/// otherwise. A shell that was forced comes first.
pub proof fn law_the_shell_that_was_asked_for_is_run(shells: Seq<ShellView>, i: int)
    requires
        0 <= i < shells.len(),
        forall|j: int| 0 <= j < i ==> (#[trigger] shells[j]).label != shells[i].label,
    ensures
        program_for(Some(shells[i].label), shells) == Some(shells[i].program),
        program_for(None, shells) == Some(shells[0].program),
{
    lemma_found_by_label(shells, i);
}

proof fn lemma_found_by_label(shells: Seq<ShellView>, i: int)
    requires
        0 <= i < shells.len(),
        forall|j: int| 0 <= j < i ==> (#[trigger] shells[j]).label != shells[i].label,
    ensures
        program_labelled(shells, shells[i].label) == Some(shells[i].program),
    decreases i,
{
    if i > 0 {
        let rest = shells.skip(1);
        assert(shells[0].label != shells[i].label);
        assert forall|j: int| 0 <= j < i - 1 implies (#[trigger] rest[j]).label != rest[i
            - 1].label by {
            assert(rest[j] == shells[j + 1]);
        }
        lemma_found_by_label(rest, i - 1);
    }
}

/// A shell is called by its program's name, without the ending programs have.
pub proof fn law_a_shell_is_called_by_its_name(name: Seq<char>)
    requires
        name.len() < 4 || name.skip(name.len() - 4) != seq!['.', 'e', 'x', 'e'],
    ensures
        label_of(name) == name,
        label_of(name + seq!['.', 'e', 'x', 'e']) == name,
{
    let long = name + seq!['.', 'e', 'x', 'e'];
    assert(label_of(name) == name);
    assert(long.skip(long.len() - 4) == seq!['.', 'e', 'x', 'e']);
    assert(long.take(long.len() - 4) == name);
    assert(label_of(long) == label_of(long.take(long.len() - 4)));
}

} // verus!
