//! How the editor behaves, in two files: the user's own and the open folder's.
//!
//! The folder's file wins, field by field: "I want ghost text everywhere" is a personal
//! preference, "not in this project" an override, and a project that names one setting
//! leaves every other one as the user asked for it.

use crate::error::{Error, ErrorView};
use crate::json::{self, Json, JsonView};
use crate::llm;
use crate::model::Scope;
use crate::paths;
use crate::text;
use vstd::prelude::*;
use vstd::string::*;

verus! {

/// In the config directory, beside `sources.json`.
pub const USER_FILE: &'static str = "settings.json";

/// In the open folder, beside its own source registry.
pub const PROJECT_FILE: &'static str = ".alkyon/settings.json";

/// Below this, a suggestion is asked for on nearly every keystroke.
pub const MIN_DEBOUNCE_MS: u64 = 50;

#[derive(Debug, Clone)]
pub struct Settings {
    pub completion: Completion,
}

/// The two kinds of completion, each switched on its own.
#[derive(Debug, Clone)]
pub struct Completion {
    pub dropdown: bool,
    pub ghost_text: bool,
    pub model: String,
    /// How long typing has to stop before a suggestion is asked for.
    pub debounce_ms: u64,
    /// How many tables travel with a request with their columns. Every other table still
    /// goes as a bare name.
    pub max_tables: usize,
}

#[verifier::ext_equal]
pub struct CompletionView {
    pub dropdown: bool,
    pub ghost_text: bool,
    pub model: Seq<char>,
    pub debounce_ms: u64,
    pub max_tables: usize,
}

impl View for Completion {
    type V = CompletionView;

    open spec fn view(&self) -> CompletionView {
        CompletionView {
            dropdown: self.dropdown,
            ghost_text: self.ghost_text,
            model: self.model@,
            debounce_ms: self.debounce_ms,
            max_tables: self.max_tables,
        }
    }
}

impl View for Settings {
    type V = CompletionView;

    open spec fn view(&self) -> CompletionView {
        self.completion@
    }
}

/// The dropdown is on: it needs no key and no network. Ghost text is off: it sends the
/// schema and the buffer somewhere else.
pub open spec fn defaults() -> CompletionView {
    CompletionView {
        dropdown: true,
        ghost_text: false,
        model: llm::MODEL@,
        debounce_ms: 250,
        max_tables: 12,
    }
}

impl Default for Completion {
    fn default() -> (r: Self)
        ensures
            r@ == defaults(),
    {
        Completion {
            dropdown: true,
            ghost_text: false,
            model: llm::MODEL.to_owned(),
            debounce_ms: 250,
            max_tables: 12,
        }
    }
}

impl Default for Settings {
    fn default() -> (r: Self)
        ensures
            r@ == defaults(),
    {
        Settings { completion: Completion::default() }
    }
}

/// Why those settings are refused, if they are.
pub open spec fn refusal(s: CompletionView) -> Option<Seq<char>> {
    if s.ghost_text && s.debounce_ms < MIN_DEBOUNCE_MS {
        Some(
            "a debounce of "@ + text::decimal(s.debounce_ms as nat)
                + " ms asks for a suggestion on nearly every keystroke — "@ + text::decimal(
                MIN_DEBOUNCE_MS as nat,
            ) + " ms is the lowest that makes sense"@,
        )
    } else if text::is_blank(s.model) {
        Some("give the model a name"@)
    } else {
        None
    }
}

impl Settings {
    /// Refuse the one value that costs money to get wrong, rather than clamp it: the box
    /// would say `0` and mean something else.
    pub fn checked(self) -> (r: Result<Settings, Error>)
        ensures
            match r {
                Ok(s) => s@ == self@ && refusal(self@) is None,
                Err(e) => refusal(self@) matches Some(m) && e@ == ErrorView::BadRequest(m),
            },
    {
        if self.completion.ghost_text && self.completion.debounce_ms < MIN_DEBOUNCE_MS {
            return Err(
                Error::BadRequest(
                    "a debounce of ".to_owned().concat(
                        &text::decimal_of(self.completion.debounce_ms),
                    ).concat(" ms asks for a suggestion on nearly every keystroke — ").concat(
                        &text::decimal_of(MIN_DEBOUNCE_MS),
                    ).concat(" ms is the lowest that makes sense"),
                ),
            );
        }
        if text::blank(&self.completion.model) {
            return Err(Error::BadRequest("give the model a name".to_owned()));
        }
        Ok(self)
    }
}

// ------------------------------------------------------------------------- layers

/// One of the two places settings can live.
#[derive(Debug, Clone)]
pub struct Layer {
    pub scope: Scope,
    /// Where it is. `None` for the project layer with no folder open, and for the user
    /// layer when there is no config directory to write into.
    pub file: Option<String>,
    /// What to show: the user's own file is shown whole, the project's is always the same
    /// name under the open folder.
    pub shown: String,
    pub present: bool,
}

#[verifier::ext_equal]
pub struct LayerView {
    pub scope: Scope,
    pub file: Option<Seq<char>>,
    pub shown: Seq<char>,
    pub present: bool,
}

impl View for Layer {
    type V = LayerView;

    open spec fn view(&self) -> LayerView {
        LayerView {
            scope: self.scope,
            file: text::opt(self.file),
            shown: self.shown@,
            present: self.present,
        }
    }
}

/// The layer of a scope, given its file and whether that file is there.
pub open spec fn layer_of(scope: Scope, file: Option<Seq<char>>, exists: bool) -> LayerView {
    LayerView {
        scope,
        file,
        shown: match (scope, file) {
            (Scope::Project, _) => PROJECT_FILE@,
            (Scope::User, Some(path)) => path,
            (Scope::User, None) => USER_FILE@,
        },
        present: file is Some && exists,
    }
}

impl Layer {
    pub fn of(scope: Scope, file: Option<String>, exists: bool) -> (r: Layer)
        ensures
            r@ == layer_of(scope, text::opt(file), exists),
    {
        let shown = match (scope, &file) {
            (Scope::Project, _) => PROJECT_FILE.to_owned(),
            (Scope::User, Some(path)) => path.clone(),
            (Scope::User, None) => USER_FILE.to_owned(),
        };
        let present = file.is_some() && exists;
        Layer { scope, file, shown, present }
    }
}

/// The folder's own file, where a folder is open.
pub open spec fn project_file(root: Option<Seq<char>>, windows: bool) -> Option<Seq<char>> {
    match root {
        Some(root) => Some(paths::join(root, PROJECT_FILE@, windows)),
        None => None,
    }
}

/// Both layers, in the order they are applied. What is there is told by the two flags.
pub fn layers(
    user_file: Option<&str>,
    project_root: Option<&str>,
    user_exists: bool,
    project_exists: bool,
    windows: bool,
) -> (r: Vec<Layer>)
    ensures
        r@.len() == 2,
        r@[0]@ == layer_of(Scope::User, text::opt_str(user_file), user_exists),
        r@[1]@ == layer_of(
            Scope::Project,
            project_file(text::opt_str(project_root), windows),
            project_exists,
        ),
{
    let project = match project_root {
        Some(root) => Some(paths::joined(root, PROJECT_FILE, windows)),
        None => None,
    };
    vec![
        Layer::of(Scope::User, text::own_opt(user_file), user_exists),
        Layer::of(Scope::Project, project, project_exists),
    ]
}

// ------------------------------------------------------------------------ merging

/// A field laid over an object: what it says wins over the field of the same name, at
/// every depth, and a new name is added.
pub open spec fn laid_over(
    base: Seq<(Seq<char>, JsonView)>,
    name: Seq<char>,
    over: JsonView,
) -> Seq<(Seq<char>, JsonView)>
    decreases over, base.len(), 1nat,
{
    if base.len() == 0 {
        seq![(name, over)]
    } else if base[0].0 == name {
        seq![(name, merged(base[0].1, over))] + base.skip(1)
    } else {
        seq![base[0]] + laid_over(base.skip(1), name, over)
    }
}

/// `over` wins, field by field and at every depth.
pub open spec fn merged(base: JsonView, over: JsonView) -> JsonView
    decreases over, 0nat, 0nat,
{
    match (base, over) {
        (JsonView::Object(b), JsonView::Object(o)) => JsonView::Object(all_laid_over(b, o)),
        _ => over,
    }
}

pub open spec fn all_laid_over(
    base: Seq<(Seq<char>, JsonView)>,
    over: Seq<(Seq<char>, JsonView)>,
) -> Seq<(Seq<char>, JsonView)>
    decreases over, 0nat, 0nat,
{
    if over.len() == 0 {
        base
    } else {
        laid_over(all_laid_over(base, over.drop_last()), over.last().0, over.last().1)
    }
}

proof fn lemma_laid_over_at(
    base: Seq<(Seq<char>, JsonView)>,
    name: Seq<char>,
    over: JsonView,
    at: int,
)
    requires
        0 <= at <= base.len(),
        forall|i: int| 0 <= i < at ==> (#[trigger] base[i]).0 != name,
        at < base.len() ==> base[at].0 == name,
    ensures
        at < base.len() ==> laid_over(base, name, over) == base.update(
            at,
            (name, merged(base[at].1, over)),
        ),
        at == base.len() ==> laid_over(base, name, over) == base.push((name, over)),
    decreases base.len(),
{
    if base.len() == 0 {
        assert(laid_over(base, name, over) =~= base.push((name, over)));
    } else if at == 0 {
        assert(laid_over(base, name, over) =~= base.update(
            0,
            (name, merged(base[0].1, over)),
        ));
    } else {
        let rest = base.skip(1);
        assert forall|i: int| 0 <= i < at - 1 implies (#[trigger] rest[i]).0 != name by {
            assert(rest[i] == base[i + 1]);
        }
        lemma_laid_over_at(rest, name, over, at - 1);
        if at < base.len() {
            assert(laid_over(base, name, over) =~= base.update(
                at,
                (name, merged(base[at].1, over)),
            ));
        } else {
            assert(laid_over(base, name, over) =~= base.push((name, over)));
        }
    }
}

/// Lay one value over another.
pub fn merge(base: Json, over: Json) -> (r: Json)
    ensures
        r@ == merged(base@, over@),
    decreases over,
{
    let ghost whole = over;
    match (base, over) {
        (Json::Object(b), Json::Object(o)) => {
            let ghost start = json::fields_view(b@);
            let ghost given = o@;
            let ghost fields = json::fields_view(o@);
            assert(base@->Object_0 =~= start);
            assert(over@->Object_0 =~= fields);
            let mut out = b;
            let mut left = o;
            let ghost mut n: int = 0;
            assert(given.skip(0) =~= given);
            assert(fields.take(0) =~= Seq::<(Seq<char>, JsonView)>::empty());
            while left.len() > 0
                invariant
                    0 <= n <= given.len(),
                    left@ == given.skip(n),
                    fields == json::fields_view(given),
                    whole == Json::Object(o),
                    o@ == given,
                    over == whole,
                    json::fields_view(out@) == all_laid_over(start, fields.take(n)),
                decreases left.len(),
            {
                assert(left@[0] == given[n]);
                let (name, value) = left.remove(0);
                assert(left@ =~= given.skip(n + 1));
                assert(fields.take(n + 1).drop_last() =~= fields.take(n));
                assert(fields.take(n + 1).last() == (name@, value@));
                assert(decreases_to!(whole => whole->Object_0));
                assert(decreases_to!(given => given[n]));
                assert(decreases_to!(given[n] => given[n].1));
                let ghost before = json::fields_view(out@);
                let found = json::place(&out, &name);
                match found {
                    Some(at) => {
                        proof {
                            assert forall|i: int| 0 <= i < at implies (#[trigger] before[i]).0
                                != name@ by {
                                assert(before[i].0 == out@[i].0@);
                            }
                            lemma_laid_over_at(before, name@, value@, at as int);
                        }
                        let (same, was) = out.remove(at);
                        out.insert(at, (same, merge(was, value)));
                        assert(json::fields_view(out@) =~= before.update(
                            at as int,
                            (name@, merged(was@, value@)),
                        ));
                    },
                    None => {
                        proof {
                            assert forall|i: int|
                                0 <= i < before.len() implies (#[trigger] before[i]).0
                                != name@ by {
                                assert(before[i].0 == out@[i].0@);
                            }
                            lemma_laid_over_at(before, name@, value@, before.len() as int);
                        }
                        out.push((name, value));
                        assert(json::fields_view(out@) =~= before.push((name@, value@)));
                    },
                }
                proof {
                    n = n + 1;
                }
            }
            assert(fields.take(n) =~= fields);
            let r = Json::Object(out);
            assert(r@->Object_0 =~= json::fields_view(out@));
            r
        },
        (_, over) => over,
    }
}

// ------------------------------------------------------------------------ reading

/// A record may be written as an object, by name, or as a list of at most so many, in
/// order.
pub open spec fn is_record(json: JsonView, most: nat) -> bool {
    match json {
        JsonView::Object(_) => true,
        JsonView::Array(items) => items.len() <= most,
        _ => false,
    }
}

/// What a record says of one of its settings, if anything.
pub open spec fn slot(json: JsonView, name: Seq<char>, at: int) -> Option<JsonView> {
    match json {
        JsonView::Object(fields) => json::field(fields, name),
        JsonView::Array(items) => if at < items.len() {
            Some(items[at])
        } else {
            None
        },
        _ => None,
    }
}

pub open spec fn truth_in(slot: Option<JsonView>, default: bool) -> Option<bool> {
    match slot {
        None => Some(default),
        Some(JsonView::Bool(b)) => Some(b),
        _ => None,
    }
}

pub open spec fn text_in(slot: Option<JsonView>, default: Seq<char>) -> Option<Seq<char>> {
    match slot {
        None => Some(default),
        Some(JsonView::Text(t)) => Some(t),
        _ => None,
    }
}

pub open spec fn number_in(slot: Option<JsonView>, default: nat, most: nat) -> Option<nat> {
    match slot {
        None => Some(default),
        Some(JsonView::Number(n)) => match text::number(n) {
            Some(k) => if k <= most {
                Some(k)
            } else {
                None
            },
            None => None,
        },
        _ => None,
    }
}

pub open spec fn completion_in(json: JsonView) -> Option<CompletionView> {
    let default = defaults();
    match (
        truth_in(slot(json, "dropdown"@, 0), default.dropdown),
        truth_in(slot(json, "ghost_text"@, 1), default.ghost_text),
        text_in(slot(json, "model"@, 2), default.model),
        number_in(slot(json, "debounce_ms"@, 3), default.debounce_ms as nat, u64::MAX as nat),
        number_in(slot(json, "max_tables"@, 4), default.max_tables as nat, usize::MAX as nat),
    ) {
        (Some(dropdown), Some(ghost_text), Some(model), Some(debounce), Some(tables)) => if is_record(
            json,
            5,
        ) {
            Some(
                CompletionView {
                    dropdown,
                    ghost_text,
                    model,
                    debounce_ms: debounce as u64,
                    max_tables: tables as usize,
                },
            )
        } else {
            None
        },
        _ => None,
    }
}

/// The settings a document holds: what it does not name is the default, and a document of
/// another shape holds none.
pub open spec fn settings_in(json: JsonView) -> Option<CompletionView> {
    if !is_record(json, 1) {
        None
    } else {
        match slot(json, "completion"@, 0) {
            Some(completion) => completion_in(completion),
            None => Some(defaults()),
        }
    }
}

fn slot_of<'a>(json: &'a Json, name: &str, at: usize) -> (r: Option<&'a Json>)
    ensures
        match r {
            Some(found) => slot(json@, name@, at as int) == Some(found@),
            None => slot(json@, name@, at as int) is None,
        },
{
    match json {
        Json::Object(fields) => {
            assert(json@->Object_0 =~= json::fields_view(fields@));
            match json::place(fields, name) {
                Some(at) => Some(&fields[at].1),
                None => None,
            }
        },
        Json::Array(items) => if at < items.len() {
            Some(&items[at])
        } else {
            None
        },
        _ => None,
    }
}

fn is_record_of(json: &Json, most: usize) -> (r: bool)
    ensures
        r == is_record(json@, most as nat),
{
    match json {
        Json::Object(_) => true,
        Json::Array(items) => items.len() <= most,
        _ => false,
    }
}

fn read_truth(slot: Option<&Json>, default: bool) -> (r: Option<bool>)
    ensures
        r == truth_in(opt_view(slot), default),
{
    match slot {
        None => Some(default),
        Some(Json::Bool(b)) => Some(*b),
        _ => None,
    }
}

pub open spec fn opt_view(slot: Option<&Json>) -> Option<JsonView> {
    match slot {
        Some(json) => Some(json@),
        None => None,
    }
}

fn read_text(slot: Option<&Json>, default: &str) -> (r: Option<String>)
    ensures
        text::opt(r) == text_in(opt_view(slot), default@),
{
    match slot {
        None => Some(default.to_owned()),
        Some(Json::Text(t)) => Some(t.clone()),
        _ => None,
    }
}

fn read_number(slot: Option<&Json>, default: u64) -> (r: Option<u64>)
    ensures
        match r {
            Some(n) => number_in(opt_view(slot), default as nat, u64::MAX as nat) == Some(n as nat),
            None => number_in(opt_view(slot), default as nat, u64::MAX as nat) is None,
        },
{
    match slot {
        None => Some(default),
        Some(Json::Number(n)) => text::parse_u64(n),
        _ => None,
    }
}

impl Completion {
    fn read(json: &Json) -> (r: Option<Completion>)
        ensures
            match r {
                Some(c) => completion_in(json@) == Some(c@),
                None => completion_in(json@) is None,
            },
    {
        if !is_record_of(json, 5) {
            return None;
        }
        let dropdown = read_truth(slot_of(json, "dropdown", 0), true);
        let ghost_text = read_truth(slot_of(json, "ghost_text", 1), false);
        let model = read_text(slot_of(json, "model", 2), llm::MODEL);
        let debounce = read_number(slot_of(json, "debounce_ms", 3), 250);
        let tables = read_number(slot_of(json, "max_tables", 4), 12);
        match (dropdown, ghost_text, model, debounce, tables) {
            (
                Some(dropdown),
                Some(ghost_text),
                Some(model),
                Some(debounce_ms),
                Some(tables),
            ) => {
                if tables > usize::MAX as u64 {
                    return None;
                }
                Some(
                    Completion {
                        dropdown,
                        ghost_text,
                        model,
                        debounce_ms,
                        max_tables: tables as usize,
                    },
                )
            },
            _ => None,
        }
    }
}

impl Settings {
    /// The settings a document holds, if it has the shape of one.
    pub fn read(json: &Json) -> (r: Option<Settings>)
        ensures
            match r {
                Some(s) => settings_in(json@) == Some(s@),
                None => settings_in(json@) is None,
            },
    {
        if !is_record_of(json, 1) {
            return None;
        }
        match slot_of(json, "completion", 0) {
            Some(completion) => match Completion::read(completion) {
                Some(completion) => Some(Settings { completion }),
                None => None,
            },
            None => Some(Settings::default()),
        }
    }
}

/// A layer laid over what is there so far. One that is absent, or is not JSON, is skipped.
pub open spec fn with_layer(base: JsonView, file: Option<Seq<char>>) -> JsonView {
    match file {
        Some(raw) => match json::parsed(raw) {
            Some(over) => merged(base, over),
            None => base,
        },
        None => base,
    }
}

/// The settings in force: the user's own, with the folder's laid over them, and the
/// defaults where the two make no settings.
pub open spec fn in_force(user: Option<Seq<char>>, project: Option<Seq<char>>) -> CompletionView {
    let start = JsonView::Object(Seq::empty());
    match settings_in(with_layer(with_layer(start, user), project)) {
        Some(settings) => settings,
        None => defaults(),
    }
}

fn lay(base: Json, file: Option<&str>) -> (r: Json)
    ensures
        r@ == with_layer(base@, text::opt_str(file)),
{
    match file {
        Some(raw) => match json::read(raw) {
            Some(over) => merge(base, over),
            None => base,
        },
        None => base,
    }
}

/// The settings in force, given what the two files hold.
pub fn load(user: Option<&str>, project: Option<&str>) -> (r: Settings)
    ensures
        r@ == in_force(text::opt_str(user), text::opt_str(project)),
{
    let start = Json::Object(Vec::new());
    assert(start@->Object_0 =~= Seq::empty());
    let merged = lay(lay(start, user), project);
    match Settings::read(&merged) {
        Some(settings) => settings,
        None => Settings::default(),
    }
}

// ------------------------------------------------------------------------ storing

pub open spec fn completion_document(s: CompletionView) -> JsonView {
    JsonView::Object(
        seq![
            ("dropdown"@, JsonView::Bool(s.dropdown)),
            ("ghost_text"@, JsonView::Bool(s.ghost_text)),
            ("model"@, JsonView::Text(s.model)),
            ("debounce_ms"@, JsonView::Number(text::decimal(s.debounce_ms as nat))),
            ("max_tables"@, JsonView::Number(text::decimal(s.max_tables as nat))),
        ],
    )
}

/// The whole document that settings are stored as.
pub open spec fn document(s: CompletionView) -> JsonView {
    JsonView::Object(seq![("completion"@, completion_document(s))])
}

proof fn lemma_names()
    ensures
        "dropdown"@ != "ghost_text"@,
        "dropdown"@ != "model"@,
        "dropdown"@ != "debounce_ms"@,
        "dropdown"@ != "max_tables"@,
        "ghost_text"@ != "model"@,
        "ghost_text"@ != "debounce_ms"@,
        "ghost_text"@ != "max_tables"@,
        "model"@ != "debounce_ms"@,
        "model"@ != "max_tables"@,
        "debounce_ms"@ != "max_tables"@,
{
    reveal_strlit("dropdown");
    reveal_strlit("ghost_text");
    reveal_strlit("model");
    reveal_strlit("debounce_ms");
    reveal_strlit("max_tables");
    assert("dropdown"@[0] == 'd' && "dropdown"@[1] == 'r');
    assert("ghost_text"@[0] == 'g');
    assert("model"@[0] == 'm' && "model"@[1] == 'o');
    assert("debounce_ms"@[0] == 'd' && "debounce_ms"@[1] == 'e');
    assert("max_tables"@[0] == 'm' && "max_tables"@[1] == 'a');
}

proof fn lemma_name_is_free(name: Seq<char>)
    requires
        name.len() > 0,
        name[0] != '$',
    ensures
        !text::starts_with(name, "$serde_json::private::"@),
{
    reveal_strlit("$serde_json::private::");
    let own = "$serde_json::private::"@;
    if text::starts_with(name, own) {
        assert(name.take(own.len() as int)[0] == own[0]);
    }
}

proof fn lemma_document_is_simple(s: CompletionView)
    ensures
        json::is_simple(document(s)),
{
    lemma_names();
    reveal_strlit("completion");
    reveal_strlit("dropdown");
    reveal_strlit("ghost_text");
    reveal_strlit("model");
    reveal_strlit("debounce_ms");
    reveal_strlit("max_tables");
    lemma_name_is_free("completion"@);
    lemma_name_is_free("dropdown"@);
    lemma_name_is_free("ghost_text"@);
    lemma_name_is_free("model"@);
    lemma_name_is_free("debounce_ms"@);
    lemma_name_is_free("max_tables"@);
    let inner = completion_document(s);
    assert(json::is_flat(inner)) by {
        let fields = inner->Object_0;
        assert(fields[3].1 == JsonView::Number(text::decimal(s.debounce_ms as nat)));
        let tables = s.max_tables as u64;
        assert(fields[4].1 == JsonView::Number(text::decimal(tables as nat)));
    }
    assert(document(s)->Object_0[0].1 == inner);
}

/// What a document is written for is what is read of it.
pub proof fn law_a_document_says_the_settings(s: CompletionView)
    ensures
        settings_in(document(s)) == Some(s),
{
    lemma_names();
    let fields = document(s)->Object_0;
    let inner = completion_document(s)->Object_0;
    assert(json::field(fields, "completion"@) == Some(fields[0].1));
    reveal_with_fuel(json::field, 6);
    assert(inner.skip(1)[0] == inner[1]);
    assert(inner.skip(1).skip(1) =~= inner.skip(2));
    assert(inner.skip(2)[0] == inner[2]);
    assert(inner.skip(2).skip(1) =~= inner.skip(3));
    assert(inner.skip(3)[0] == inner[3]);
    assert(inner.skip(3).skip(1) =~= inner.skip(4));
    assert(inner.skip(4)[0] == inner[4]);
    assert(json::field(inner, "dropdown"@) == Some(inner[0].1));
    assert(json::field(inner, "ghost_text"@) == Some(inner[1].1));
    assert(json::field(inner, "model"@) == Some(inner[2].1));
    assert(json::field(inner, "debounce_ms"@) == Some(inner[3].1));
    assert(json::field(inner, "max_tables"@) == Some(inner[4].1));
    text::lemma_decimal(s.debounce_ms as nat);
    text::lemma_decimal(s.max_tables as nat);
}

fn truth(b: bool) -> (r: Json)
    ensures
        r@ == JsonView::Bool(b),
{
    Json::Bool(b)
}

fn count(n: u64) -> (r: Json)
    ensures
        r@ == JsonView::Number(text::decimal(n as nat)),
{
    Json::Number(text::decimal_of(n))
}

fn words(s: String) -> (r: Json)
    ensures
        r@ == JsonView::Text(s@),
{
    Json::Text(s)
}

/// What a settings file holds. A key nobody here knows about does not survive a save: the
/// whole document is written. It ends with a line break, since a project's is committed.
pub fn store(settings: &Settings) -> (r: String)
    ensures
        r@ == json::json_pretty(document(settings@)) + "\n"@,
        in_force(None, Some(r@)) == settings@,
        in_force(Some(r@), None) == settings@,
{
    let c = &settings.completion;
    let dropdown = truth(c.dropdown);
    let ghost_text = truth(c.ghost_text);
    let model = words(c.model.clone());
    let debounce = count(c.debounce_ms);
    let tables = count(c.max_tables as u64);
    let inner = Json::Object(
        vec![
            ("dropdown".to_owned(), dropdown),
            ("ghost_text".to_owned(), ghost_text),
            ("model".to_owned(), model),
            ("debounce_ms".to_owned(), debounce),
            ("max_tables".to_owned(), tables),
        ],
    );
    assert(inner@->Object_0 =~= completion_document(settings@)->Object_0);
    let whole = Json::Object(vec![("completion".to_owned(), inner)]);
    assert(whole@->Object_0 =~= document(settings@)->Object_0);
    proof {
        lemma_document_is_simple(settings@);
        law_a_document_says_the_settings(settings@);
        law_a_layer_over_nothing_is_itself(document(settings@)->Object_0);
    }
    json::kept(&whole)
}

// --------------------------------------------------------------------------- laws

proof fn lemma_new_names(
    base: Seq<(Seq<char>, JsonView)>,
    over: Seq<(Seq<char>, JsonView)>,
    n: int,
)
    requires
        base.len() == 0,
        json::names_differ(over),
        0 <= n <= over.len(),
    ensures
        all_laid_over(base, over.take(n)) == over.take(n),
    decreases n,
{
    if n == 0 {
        assert(over.take(0) =~= base);
    } else {
        lemma_new_names(base, over, n - 1);
        assert(over.take(n).drop_last() =~= over.take(n - 1));
        let before = over.take(n - 1);
        assert forall|i: int| 0 <= i < before.len() implies (#[trigger] before[i]).0 != over[n
            - 1].0 by {
            assert(before[i] == over[i]);
        }
        lemma_laid_over_at(before, over[n - 1].0, over[n - 1].1, before.len() as int);
        assert(over.take(n) =~= before.push(over[n - 1]));
    }
}

/// A layer over nothing is that layer.
pub proof fn law_a_layer_over_nothing_is_itself(over: Seq<(Seq<char>, JsonView)>)
    requires
        json::names_differ(over),
    ensures
        merged(JsonView::Object(Seq::empty()), JsonView::Object(over)) == JsonView::Object(over),
{
    lemma_new_names(Seq::empty(), over, over.len() as int);
    assert(over.take(over.len() as int) =~= over);
}

proof fn lemma_field_laid_over(
    base: Seq<(Seq<char>, JsonView)>,
    name: Seq<char>,
    over: JsonView,
    asked: Seq<char>,
)
    ensures
        json::field(laid_over(base, name, over), asked) == (if asked == name {
            Some(
                match json::field(base, name) {
                    Some(was) => merged(was, over),
                    None => over,
                },
            )
        } else {
            json::field(base, asked)
        }),
    decreases base.len(),
{
    let out = laid_over(base, name, over);
    if base.len() == 0 {
        assert(out.skip(1) =~= Seq::empty());
        assert(json::field(out.skip(1), asked) is None);
    } else if base[0].0 == name {
        assert(out[0] == (name, merged(base[0].1, over)));
        assert(out.skip(1) =~= base.skip(1));
    } else {
        assert(out[0] == base[0]);
        lemma_field_laid_over(base.skip(1), name, over, asked);
        assert(out.skip(1) =~= laid_over(base.skip(1), name, over));
    }
}

proof fn lemma_no_field(fields: Seq<(Seq<char>, JsonView)>, name: Seq<char>)
    requires
        forall|i: int| 0 <= i < fields.len() ==> (#[trigger] fields[i]).0 != name,
    ensures
        json::field(fields, name) is None,
    decreases fields.len(),
{
    if fields.len() > 0 {
        let rest = fields.skip(1);
        assert forall|i: int| 0 <= i < rest.len() implies (#[trigger] rest[i]).0 != name by {
            assert(rest[i] == fields[i + 1]);
        }
        lemma_no_field(rest, name);
    }
}

proof fn lemma_field_of_last(fields: Seq<(Seq<char>, JsonView)>, name: Seq<char>)
    requires
        json::names_differ(fields),
        fields.len() > 0,
    ensures
        json::field(fields, name) == (if fields.last().0 == name {
            Some(fields.last().1)
        } else {
            json::field(fields.drop_last(), name)
        }),
    decreases fields.len(),
{
    if fields.len() == 1 {
        assert(fields.drop_last() =~= Seq::empty());
        assert(fields.skip(1) =~= Seq::empty());
    } else {
        let rest = fields.skip(1);
        assert forall|i: int, j: int|
            #![trigger rest[i], rest[j]]
            0 <= i < j < rest.len() implies rest[i].0 != rest[j].0 by {
            assert(rest[i] == fields[i + 1] && rest[j] == fields[j + 1]);
        }
        lemma_field_of_last(rest, name);
        assert(rest.last() == fields.last());
        assert(fields.drop_last().skip(1) =~= rest.drop_last());
        assert(fields[0].0 != fields.last().0);
    }
}

/// Field by field, the folder's wins: what a name stands for after the merge is what the
/// layer on top says, laid over what the one below says, and where the layer on top does
/// not name it, what the one below says.
pub proof fn law_the_folder_wins_field_by_field(
    base: Seq<(Seq<char>, JsonView)>,
    over: Seq<(Seq<char>, JsonView)>,
    name: Seq<char>,
)
    requires
        json::names_differ(over),
    ensures
        json::field(all_laid_over(base, over), name) == (match json::field(over, name) {
            Some(wins) => Some(
                match json::field(base, name) {
                    Some(was) => merged(was, wins),
                    None => wins,
                },
            ),
            None => json::field(base, name),
        }),
    decreases over.len(),
{
    if over.len() > 0 {
        let first = over.drop_last();
        assert forall|i: int, j: int|
            #![trigger first[i], first[j]]
            0 <= i < j < first.len() implies first[i].0 != first[j].0 by {
            assert(first[i] == over[i] && first[j] == over[j]);
        }
        law_the_folder_wins_field_by_field(base, first, name);
        lemma_field_laid_over(
            all_laid_over(base, first),
            over.last().0,
            over.last().1,
            name,
        );
        lemma_field_of_last(over, name);
        if over.last().0 == name {
            assert forall|i: int| 0 <= i < first.len() implies (#[trigger] first[i]).0 != name by {
                assert(first[i] == over[i]);
            }
            lemma_no_field(first, name);
        }
    }
}

/// A folder that turns one switch leaves the others as the user has them.
pub proof fn law_one_switch_is_one_switch(user: CompletionView, ghost_text: bool)
    ensures
        settings_in(
            merged(
                document(user),
                JsonView::Object(
                    seq![
                        (
                            "completion"@,
                            JsonView::Object(seq![("ghost_text"@, JsonView::Bool(ghost_text))]),
                        ),
                    ],
                ),
            ),
        ) == Some(CompletionView { ghost_text, ..user }),
{
    lemma_names();
    law_a_document_says_the_settings(user);
    let inner = completion_document(user)->Object_0;
    let switch = seq![("ghost_text"@, JsonView::Bool(ghost_text))];
    let top = seq![("completion"@, JsonView::Object(switch))];
    let base = document(user)->Object_0;
    law_the_folder_wins_field_by_field(base, top, "completion"@);
    assert(json::field(top, "completion"@) == Some(top[0].1));
    assert(json::field(base, "completion"@) == Some(base[0].1));
    let both = all_laid_over(inner, switch);
    assert(merged(base[0].1, top[0].1) == JsonView::Object(both));
    law_the_folder_wins_field_by_field(inner, switch, "dropdown"@);
    law_the_folder_wins_field_by_field(inner, switch, "ghost_text"@);
    law_the_folder_wins_field_by_field(inner, switch, "model"@);
    law_the_folder_wins_field_by_field(inner, switch, "debounce_ms"@);
    law_the_folder_wins_field_by_field(inner, switch, "max_tables"@);
    assert(json::field(switch, "ghost_text"@) == Some(switch[0].1));
    lemma_no_field(switch, "dropdown"@);
    lemma_no_field(switch, "model"@);
    lemma_no_field(switch, "debounce_ms"@);
    lemma_no_field(switch, "max_tables"@);
    assert(json::field(inner, "ghost_text"@) is Some) by {
        reveal_with_fuel(json::field, 3);
        assert(inner.skip(1)[0] == inner[1]);
    }
    let after = completion_in(JsonView::Object(both));
    let was = completion_in(JsonView::Object(inner));
    assert(was == Some(user));
    assert(after == Some(CompletionView { ghost_text, ..user }));
}

/// What holds where nothing was said: a list to choose from and no text suggested ahead, and
/// settings nobody would refuse.
pub proof fn law_the_defaults_are_modest()
    ensures
        defaults().dropdown,
        !defaults().ghost_text,
        defaults().debounce_ms == 250,
        defaults().max_tables == 12,
        settings_in(JsonView::Object(Seq::empty())) == Some(defaults()),
        in_force(None, None) == defaults(),
{
}

/// Settings are refused only for asking on nearly every keystroke, or for naming no model.
pub proof fn law_settings_are_refused_only_for_a_reason(s: CompletionView)
    ensures
        refusal(s) is Some <==> (s.ghost_text && s.debounce_ms < MIN_DEBOUNCE_MS)
            || text::is_blank(s.model),
{
}

/// A file that is not JSON, or is not there, says nothing: what the other one says holds.
pub proof fn law_a_file_that_is_not_json_says_nothing(
    user: Option<Seq<char>>,
    project: Option<Seq<char>>,
    broken: Seq<char>,
)
    requires
        json::parsed(broken) is None,
    ensures
        in_force(Some(broken), project) == in_force(None, project),
        in_force(user, Some(broken)) == in_force(user, None),
{
}

/// What is in force is the user's file with the folder's laid over it.
pub proof fn law_the_folder_lies_over_the_user(user: Seq<char>, project: Seq<char>)
    requires
        json::parsed(user) is Some,
        json::parsed(user)->Some_0 is Object,
        json::names_differ(json::parsed(user)->Some_0->Object_0),
        json::parsed(project) is Some,
        settings_in(
            merged(json::parsed(user)->Some_0, json::parsed(project)->Some_0),
        ) is Some,
    ensures
        settings_in(merged(json::parsed(user)->Some_0, json::parsed(project)->Some_0)) == Some(
            in_force(Some(user), Some(project)),
        ),
{
    law_a_layer_over_nothing_is_itself(json::parsed(user)->Some_0->Object_0);
}

/// A layer is shown by the file it is in, and is present exactly where that file is.
pub proof fn law_a_layer_is_its_file(scope: Scope, file: Seq<char>, exists: bool)
    ensures
        layer_of(scope, None, exists).present == false,
        layer_of(scope, Some(file), exists).present == exists,
        layer_of(scope, Some(file), exists).file == Some(file),
        layer_of(scope, Some(file), exists).scope == scope,
        layer_of(Scope::User, Some(file), exists).shown == file,
        layer_of(Scope::Project, Some(file), exists).shown == PROJECT_FILE@,
{
}

} // verus!
