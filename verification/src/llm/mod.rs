//! Ghost text: the greyed suggestion at the cursor, written by a model.
//!
//! The counterpart to the completion dropdown rather than its replacement. The dropdown is
//! built from the schema at hand: offline, exact, and unable to offer a name that is not
//! there. This can finish a clause nobody has typed, and it can be wrong. It is off until
//! it is turned on, because it sends the schema and the buffer to a third party.

pub mod context;

use crate::error::{Error, ErrorView};
use crate::json::{Json, JsonView};
use crate::text;
use context::{Ask, AskView};
use vstd::prelude::*;
use vstd::string::*;

verus! {

/// A small model, since a suggestion has about a second before it is late.
pub const MODEL: &'static str = "haiku-4-5";

pub const ENDPOINT: &'static str = "https://api.anthropic.com/v1/messages";

/// The API version header. Pinned, not tracked: this is a wire contract.
pub const VERSION: &'static str = "2023-06-01";

/// Enough for a clause and a line break, not enough for an essay.
pub const MAX_TOKENS: i64 = 96;

/// How long an answer is waited for. One that comes later is thrown away anyway: the
/// cursor has moved.
pub const TIMEOUT_SECONDS: u64 = 6;

/// The environment variable the key is read from.
pub const KEY_VARIABLE: &'static str = "ANTHROPIC_API_KEY";

/// The environment variable that sends the request somewhere else.
pub const ENDPOINT_VARIABLE: &'static str = "ALKYON_LLM_ENDPOINT";

// ------------------------------------------------------------------- configuration

/// A setting without the white space around it, where anything is left.
pub open spec fn filled(setting: Option<Seq<char>>) -> Option<Seq<char>> {
    match setting {
        Some(s) => if text::trim(s).len() > 0 {
            Some(text::trim(s))
        } else {
            None
        },
        None => None,
    }
}

fn given(setting: Option<&str>) -> (r: Option<String>)
    ensures
        text::opt(r) == filled(text::opt_str(setting)),
{
    match setting {
        Some(s) => {
            let trimmed = text::trimmed(s);
            if trimmed.as_str().is_empty() {
                None
            } else {
                Some(trimmed)
            }
        },
        None => None,
    }
}

/// Where to send the request, given what [`ENDPOINT_VARIABLE`] says.
pub fn endpoint(setting: Option<&str>) -> (r: String)
    ensures
        r@ == (match filled(text::opt_str(setting)) {
            Some(url) => url,
            None => ENDPOINT@,
        }),
{
    match given(setting) {
        Some(url) => url,
        None => ENDPOINT.to_owned(),
    }
}

pub open spec fn no_key() -> Seq<char> {
    "ghost text needs a model to ask: set "@ + KEY_VARIABLE@
        + " in the environment alkyon was started from"@
}

/// The key, given what [`KEY_VARIABLE`] says, or the sentence that says how to give one.
pub fn key(setting: Option<&str>) -> (r: Result<String, Error>)
    ensures
        match r {
            Ok(key) => filled(text::opt_str(setting)) == Some(key@),
            Err(e) => filled(text::opt_str(setting)) is None && e@ == ErrorView::BadRequest(
                no_key(),
            ),
        },
{
    match given(setting) {
        Some(key) => Ok(key),
        None => Err(
            Error::BadRequest(
                "ghost text needs a model to ask: set ".to_owned().concat(KEY_VARIABLE).concat(
                    " in the environment alkyon was started from",
                ),
            ),
        ),
    }
}

/// Whether a suggestion could be asked for at all. No request, no key in the answer.
pub fn configured(setting: Option<&str>) -> (r: bool)
    ensures
        r == filled(text::opt_str(setting)) is Some,
{
    key(setting).is_ok()
}

// ------------------------------------------------------------------------- request

/// An object of two texts.
pub open spec fn pair_of(a: Seq<char>, b: Seq<char>, c: Seq<char>, d: Seq<char>) -> JsonView {
    JsonView::Object(seq![(a, JsonView::Text(b)), (c, JsonView::Text(d))])
}

/// What is sent: the two halves of the prompt, and where the answer has to stop.
pub open spec fn asked(ask: AskView, model: Seq<char>) -> JsonView {
    JsonView::Object(
        seq![
            ("model"@, JsonView::Text(model)),
            ("max_tokens"@, crate::json::whole(MAX_TOKENS as int)),
            (
                "system"@,
                JsonView::Array(
                    seq![pair_of("type"@, "text"@, "text"@, context::standing(ask.dialect))],
                ),
            ),
            (
                "messages"@,
                JsonView::Array(
                    seq![pair_of("role"@, "user"@, "content"@, context::moving(ask))],
                ),
            ),
            (
                "stop_sequences"@,
                JsonView::Array(seq![JsonView::Text("\n\n"@), JsonView::Text("```"@)]),
            ),
        ],
    )
}

fn words(s: String) -> (r: Json)
    ensures
        r@ == JsonView::Text(s@),
{
    Json::Text(s)
}

fn pair(a: &str, b: &str, c: &str, d: String) -> (r: Json)
    ensures
        r@ == pair_of(a@, b@, c@, d@),
{
    let (first, second) = (words(b.to_owned()), words(d));
    let r = Json::Object(vec![(a.to_owned(), first), (c.to_owned(), second)]);
    assert(r@->Object_0 =~= pair_of(a@, b@, c@, d@)->Object_0);
    r
}

fn only(item: Json) -> (r: Json)
    ensures
        r@ == JsonView::Array(seq![item@]),
{
    let r = Json::Array(vec![item]);
    assert(r@->Array_0 =~= seq![item@]);
    r
}

/// The body of the request.
pub fn request(ask: &Ask, model: &str) -> (r: Json)
    ensures
        r@ == asked(ask@, model@),
{
    let (blank, fence) = (words("\n\n".to_owned()), words("```".to_owned()));
    let stops = Json::Array(vec![blank, fence]);
    assert(stops@->Array_0 =~= seq![JsonView::Text("\n\n"@), JsonView::Text("```"@)]);
    let system = only(pair("type", "text", "text", context::system(ask.dialect)));
    let messages = only(pair("role", "user", "content", context::user(ask)));
    let name = words(model.to_owned());
    let limit = crate::json::whole_of(MAX_TOKENS);
    let r = Json::Object(
        vec![
            ("model".to_owned(), name),
            ("max_tokens".to_owned(), limit),
            ("system".to_owned(), system),
            ("messages".to_owned(), messages),
            ("stop_sequences".to_owned(), stops),
        ],
    );
    assert(r@->Object_0 =~= asked(ask@, model@)->Object_0);
    r
}

// -------------------------------------------------------------------------- answer

/// What answered, and what it cost.
pub struct Suggestion {
    pub text: String,
    pub input_tokens: u32,
    pub output_tokens: u32,
}

/// One block of an answer.
pub struct Block {
    pub kind: String,
    pub text: String,
}

pub struct Answer {
    pub content: Vec<Block>,
    pub input_tokens: u32,
    pub output_tokens: u32,
}

/// What came of a request.
pub enum Reply {
    /// No client could be built to send it with.
    Unbuilt(String),
    /// Nothing was reached.
    Unreached(String),
    /// The connection broke before an answer.
    Silent(String),
    /// A refusal: the status, and the API's own sentence when there is one.
    Refused { status: String, said: Option<String> },
    /// An answer that could not be read.
    Unreadable(String),
    Answered(Answer),
}

/// What the text blocks say, one after the other.
pub open spec fn spoken(content: Seq<Block>) -> Seq<char>
    decreases content.len(),
{
    if content.len() == 0 {
        Seq::empty()
    } else {
        spoken(content.drop_last()) + (if content.last().kind@ == "text"@ {
            content.last().text@
        } else {
            Seq::empty()
        })
    }
}

fn speak(content: &Vec<Block>) -> (r: String)
    ensures
        r@ == spoken(content@),
{
    let ghost all = content@;
    let mut out = String::new();
    let mut i: usize = 0;
    assert(all.take(0) =~= Seq::<Block>::empty());
    while i < content.len()
        invariant
            i <= content.len(),
            all == content@,
            out@ == spoken(all.take(i as int)),
        decreases content.len() - i,
    {
        assert(all.take(i as int + 1).drop_last() =~= all.take(i as int));
        if text::same(&content[i].kind, "text") {
            out.append(&content[i].text);
        }
        i = i + 1;
    }
    assert(all.take(i as int) =~= all);
    out
}

pub open spec fn reply_error(reply: Reply) -> Option<Seq<char>> {
    match reply {
        Reply::Unbuilt(e) => Some("cannot build an HTTPS client: "@ + e@),
        Reply::Unreached(e) => Some("cannot reach the model: "@ + e@),
        Reply::Silent(e) => Some("the model sent no answer: "@ + e@),
        Reply::Refused { status, said } => Some(
            "the model refused: "@ + (match said {
                Some(said) => said@,
                None => "HTTP "@ + status@,
            }),
        ),
        Reply::Unreadable(e) => Some("the model sent an unreadable answer: "@ + e@),
        Reply::Answered(_) => None,
    }
}

/// What a reply comes to: the text that goes at the cursor, or why there is none.
pub fn suggest(reply: Reply, prefix: &str, suffix: &str) -> (r: Result<Suggestion, Error>)
    ensures
        match r {
            Ok(s) => reply matches Reply::Answered(answer) && s.text@ == cleaned(
                spoken(answer.content@),
                prefix@,
                suffix@,
            ) && s.input_tokens == answer.input_tokens && s.output_tokens == answer.output_tokens,
            Err(e) => reply_error(reply) matches Some(m) && e@ == ErrorView::BadRequest(m),
        },
{
    match reply {
        Reply::Unbuilt(e) => Err(
            Error::BadRequest("cannot build an HTTPS client: ".to_owned().concat(&e)),
        ),
        Reply::Unreached(e) => Err(
            Error::BadRequest("cannot reach the model: ".to_owned().concat(&e)),
        ),
        Reply::Silent(e) => Err(
            Error::BadRequest("the model sent no answer: ".to_owned().concat(&e)),
        ),
        Reply::Refused { status, said } => {
            let said = match said {
                Some(said) => said,
                None => "HTTP ".to_owned().concat(&status),
            };
            Err(Error::BadRequest("the model refused: ".to_owned().concat(&said)))
        },
        Reply::Unreadable(e) => Err(
            Error::BadRequest("the model sent an unreadable answer: ".to_owned().concat(&e)),
        ),
        Reply::Answered(answer) => Ok(
            Suggestion {
                text: clean(&speak(&answer.content), prefix, suffix),
                input_tokens: answer.input_tokens,
                output_tokens: answer.output_tokens,
            },
        ),
    }
}

// ------------------------------------------------------------------------ cleaning

/// What a fenced answer holds; any other is what it is.
pub open spec fn unfenced(raw: Seq<char>) -> Seq<char> {
    let body = match text::after_prefix(text::trim_start(raw), "```"@) {
        Some(rest) => match text::split_once(rest, '\n') {
            Some((_, body)) => body,
            None => Seq::empty(),
        },
        None => raw,
    };
    match text::cut(body, "```"@) {
        Some((before, _)) => before,
        None => body,
    }
}

/// What never carries meaning at the end of a suggestion.
pub open spec fn is_trailing(c: char) -> bool {
    c == '\n' || c == '\r' || c == ' ' || c == '\t'
}

pub open spec fn trailing() -> spec_fn(char) -> bool {
    |c: char| is_trailing(c)
}

pub open spec fn without_trailing(s: Seq<char>) -> Seq<char> {
    s.take(s.len() - text::run_back(s, trailing()))
}

pub open spec fn ends_in_space(s: Seq<char>) -> bool {
    s.len() > 0 && (s.last() == ' ' || s.last() == '\t' || s.last() == '\n')
}

/// What is left of an answer before it is held against what follows the cursor.
pub open spec fn fitted(raw: Seq<char>, prefix: Seq<char>) -> Seq<char> {
    let s = without_trailing(unfenced(raw));
    if ends_in_space(prefix) {
        text::trim_start(s)
    } else {
        s
    }
}

/// Whether a suggestion is already there, just to the right of the cursor.
pub open spec fn repeats(s: Seq<char>, suffix: Seq<char>) -> bool {
    text::trim_start(suffix).len() > 0 && text::starts_with(
        text::trim_start(suffix),
        text::trim(s),
    )
}

/// What the model said, made insertable, or emptied: no code fence, no space after a
/// space, and no repetition of what follows.
pub open spec fn cleaned(raw: Seq<char>, prefix: Seq<char>, suffix: Seq<char>) -> Seq<char> {
    let s = fitted(raw, prefix);
    if text::is_blank(s) || repeats(s, suffix) {
        Seq::empty()
    } else {
        s
    }
}

fn unfence(raw: &str) -> (r: String)
    ensures
        r@ == unfenced(raw@),
{
    let body = match text::strip_prefix(&text::trimmed_start(raw), "```") {
        Some(rest) => match text::split_first(&rest, '\n') {
            Some((_, body)) => body,
            None => String::new(),
        },
        None => raw.to_owned(),
    };
    match text::cut_at(&body, "```") {
        Some((before, _)) => before,
        None => body,
    }
}

fn drop_trailing(s: &str) -> (r: String)
    ensures
        r@ == without_trailing(s@),
{
    let v = text::chars_of(s);
    let mut b: usize = v.len();
    while b > 0 && (v[b - 1] == '\n' || v[b - 1] == '\r' || v[b - 1] == ' ' || v[b - 1] == '\t')
        invariant
            b <= v.len(),
            v@ == s@,
            forall|j: int| b <= j < v.len() ==> trailing()(#[trigger] s@[j]),
        decreases b,
    {
        b = b - 1;
    }
    proof {
        text::lemma_run_back_is(s@, trailing(), v@.len() - b);
    }
    let r = text::slice(&v, 0, b);
    assert(r@ == s@.take(b as int));
    r
}

pub fn clean(raw: &str, prefix: &str, suffix: &str) -> (r: String)
    ensures
        r@ == cleaned(raw@, prefix@, suffix@),
{
    let mut fit = drop_trailing(&unfence(raw));
    let before = text::chars_of(prefix);
    if before.len() > 0 {
        let last = before[before.len() - 1];
        if last == ' ' || last == '\t' || last == '\n' {
            fit = text::trimmed_start(&fit);
        }
    }
    if text::blank(&fit) {
        return String::new();
    }
    let ahead = text::trimmed_start(suffix);
    if !ahead.as_str().is_empty() && text::begins(&ahead, &text::trimmed(&fit)) {
        return String::new();
    }
    fit
}

// --------------------------------------------------------------------------- laws

/// A suggestion is empty, or it can be inserted as it is: it holds no code fence, ends in
/// no white space, does not double a space before the cursor, and is not what already
/// follows it.
pub proof fn law_a_suggestion_is_insertable(raw: Seq<char>, prefix: Seq<char>, suffix: Seq<char>)
    ensures
        ({
            let s = cleaned(raw, prefix, suffix);
            s.len() > 0 ==> {
                &&& !is_trailing(s.last())
                &&& !text::contains(s, "```"@)
                &&& ends_in_space(prefix) ==> !text::is_white(s[0])
                &&& !repeats(s, suffix)
            }
        }),
{
    let s = cleaned(raw, prefix, suffix);
    if s.len() > 0 {
        reveal_strlit("```");
        let fence = "```"@;
        let whole = unfenced(raw);
        let kept = without_trailing(whole);
        text::lemma_run_back(whole, trailing());
        lemma_no_fence(raw);
        if text::contains(s, fence) {
            text::lemma_find(s, fence);
            let n = text::find(s, fence)->0 as int;
            if ends_in_space(prefix) {
                text::lemma_run(kept, text::white());
                let m = text::run(kept, text::white()) as int;
                assert(whole.skip(m + n).take(3) =~= s.skip(n).take(3));
                lemma_found_at(whole, fence, m + n);
            } else {
                assert(whole.skip(n).take(3) =~= s.skip(n).take(3));
                lemma_found_at(whole, fence, n);
            }
        }
        text::lemma_run(kept, text::white());
    }
}

proof fn lemma_found_at(s: Seq<char>, p: Seq<char>, n: int)
    requires
        0 <= n <= s.len() - p.len(),
        text::starts_with(s.skip(n), p),
    ensures
        text::contains(s, p),
{
    text::lemma_find(s, p);
}

proof fn lemma_no_fence(raw: Seq<char>)
    ensures
        !text::contains(unfenced(raw), "```"@),
{
    reveal_strlit("```");
    let fence = "```"@;
    let body = match text::after_prefix(text::trim_start(raw), fence) {
        Some(rest) => match text::split_once(rest, '\n') {
            Some((_, body)) => body,
            None => Seq::empty(),
        },
        None => raw,
    };
    text::lemma_find(body, fence);
    let before = unfenced(raw);
    if text::contains(before, fence) && text::cut(body, fence) is Some {
        text::lemma_find(before, fence);
        let n = text::find(before, fence)->0 as int;
        assert(body.skip(n).take(3) =~= before.skip(n).take(3));
    }
}

/// A suggestion that is plain text that can go where it stands is kept as it is.
pub proof fn law_a_plain_suggestion_is_kept_whole(
    raw: Seq<char>,
    prefix: Seq<char>,
    suffix: Seq<char>,
)
    requires
        raw.len() > 0,
        !text::contains(raw, "```"@),
        !is_trailing(raw.last()),
        !text::is_blank(raw),
        !ends_in_space(prefix),
        !repeats(raw, suffix),
    ensures
        cleaned(raw, prefix, suffix) == raw,
{
    let fence = "```"@;
    let start = text::trim_start(raw);
    text::lemma_run(raw, text::white());
    if text::starts_with(start, fence) {
        assert(text::starts_with(raw.skip(text::run(raw, text::white()) as int), fence));
    }
    text::lemma_find(raw, fence);
    assert(unfenced(raw) == raw);
    text::lemma_run_back_is(raw, trailing(), 0);
    assert(raw.take(raw.len() as int) == raw);
}

/// What a model said is its text, block after block, and nothing of what else it sent.
pub proof fn law_an_answer_is_its_text(a: Seq<Block>, b: Seq<Block>)
    ensures
        spoken(a + b) == spoken(a) + spoken(b),
        a.len() == 1 && a[0].kind@ == "text"@ ==> spoken(a) == a[0].text@,
        a.len() == 1 && a[0].kind@ != "text"@ ==> spoken(a) == Seq::<char>::empty(),
        a.len() == 0 ==> spoken(a) == Seq::<char>::empty(),
    decreases b.len(),
{
    let none = Seq::<char>::empty();
    if a.len() == 1 {
        reveal_with_fuel(spoken, 2);
        assert(none + a[0].text@ == a[0].text@);
        assert(none + none == none);
    }
    if b.len() == 0 {
        assert(a + b == a);
        assert(spoken(a) + none == spoken(a));
    } else {
        law_an_answer_is_its_text(a, b.drop_last());
        assert((a + b).drop_last() == a + b.drop_last());
        assert((a + b).last() == b.last());
        let last = if b.last().kind@ == "text"@ {
            b.last().text@
        } else {
            none
        };
        assert(spoken(a) + spoken(b.drop_last()) + last == spoken(a) + (spoken(b.drop_last())
            + last));
    }
}

/// Only an answer is no failure.
pub proof fn law_only_an_answer_is_no_failure(reply: Reply)
    ensures
        reply_error(reply) is None <==> reply is Answered,
{
}

/// A model is asked by its name, with what it is to do, what there is to see, and where to
/// stop.
pub proof fn law_a_model_is_asked_what_there_is_to_see(ask: AskView, model: Seq<char>)
    ensures
        match asked(ask, model) {
            JsonView::Object(fields) => {
                &&& fields.len() == 5
                &&& fields[0] == ("model"@, JsonView::Text(model))
                &&& fields[1].0 == "max_tokens"@
                &&& fields[2] == (
                    "system"@,
                    JsonView::Array(
                        seq![
                            JsonView::Object(
                                seq![
                                    ("type"@, JsonView::Text("text"@)),
                                    ("text"@, JsonView::Text(context::standing(ask.dialect))),
                                ],
                            ),
                        ],
                    ),
                )
                &&& fields[3] == (
                    "messages"@,
                    JsonView::Array(
                        seq![
                            JsonView::Object(
                                seq![
                                    ("role"@, JsonView::Text("user"@)),
                                    ("content"@, JsonView::Text(context::moving(ask))),
                                ],
                            ),
                        ],
                    ),
                )
                &&& fields[4] == (
                    "stop_sequences"@,
                    JsonView::Array(seq![JsonView::Text("\n\n"@), JsonView::Text("```"@)]),
                )
            },
            _ => false,
        },
{
}

} // verus!
