//! What is decided before the server listens.

use crate::json::{self, Json, JsonView};
use crate::text;
use vstd::prelude::*;
use vstd::string::*;

verus! {

/// Where the server listens where nobody says.
pub const DEFAULT_BIND: &'static str = "127.0.0.1:8787";

/// Where to listen, and whether that is ours to choose: an address of one's own is a
/// deliberate choice, so its port is never silently changed and a server already sitting
/// there never adopted.
pub fn bind(setting: Option<&str>) -> (r: (String, bool))
    ensures
        r.0@ == (match text::opt_str(setting) {
            Some(address) => address,
            None => DEFAULT_BIND@,
        }),
        r.1 == (setting is None),
{
    match setting {
        Some(address) => (address.to_owned(), false),
        None => (DEFAULT_BIND.to_owned(), true),
    }
}

/// Whether to open a window: only a desktop build has one, and `--headless` or
/// `ALKYON_HEADLESS` runs it as a plain server.
pub fn windowed(desktop: bool, arguments: &Vec<String>, headless: bool) -> (r: bool)
    ensures
        r == (desktop && !headless && !text::views(arguments@).contains("--headless"@)),
{
    if !desktop || headless {
        return false;
    }
    let ghost all = text::views(arguments@);
    let mut i: usize = 0;
    while i < arguments.len()
        invariant
            i <= arguments.len(),
            all == text::views(arguments@),
            forall|j: int| 0 <= j < i ==> #[trigger] all[j] != "--headless"@,
        decreases arguments.len() - i,
    {
        assert(all[i as int] == arguments@[i as int]@);
        if text::same(&arguments[i], "--headless") {
            assert(all.contains("--headless"@));
            return false;
        }
        i = i + 1;
    }
    true
}

/// Whether what answered is this workbench: the vault and the terminal are ours to name,
/// so an unrelated service holding the port is not mistaken for it.
pub open spec fn is_ours(body: JsonView) -> bool {
    body matches JsonView::Object(fields) && json::field(fields, "status"@) == Some(
        JsonView::Text("ok"@),
    ) && json::field(fields, "vault"@) is Some && json::field(fields, "terminal"@) is Some
}

pub fn already_running(body: &Json) -> (r: bool)
    ensures
        r == is_ours(body@),
{
    match body {
        Json::Object(fields) => {
            assert(body@->Object_0 =~= json::fields_view(fields@));
            let status = match json::place(fields, "status") {
                Some(at) => match &fields[at].1 {
                    Json::Text(t) => text::same(t, "ok"),
                    _ => false,
                },
                None => false,
            };
            status && json::place(fields, "vault").is_some() && json::place(
                fields,
                "terminal",
            ).is_some()
        },
        _ => false,
    }
}

} // verus!
