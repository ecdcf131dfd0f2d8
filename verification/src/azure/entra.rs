//! Signing in to Microsoft Entra ID.
//!
//! Two flows, both public-client OAuth 2.0 with no client secret: the authorization
//! code with PKCE, whose redirect a loopback listener takes, and the device code, for
//! when the browser is on another machine. Both end in an access token to use now and
//! a refresh token to mint the next one with.
//!
//! What is sent, and what is made of every answer, is decided here. Sending it is
//! not.

use crate::error::{Error, ErrorView};
use crate::table::Table;
use crate::text;
use base64::engine::general_purpose::URL_SAFE_NO_PAD;
use base64::Engine as _;
use sha2::{Digest, Sha256};
use vstd::prelude::*;
use vstd::string::*;
use vstd::utf8::*;

verus! {

/// Azure CLI's own application id: a public client with `http://localhost` already
/// registered in every tenant. A default, not the only choice.
pub const AZURE_CLI_CLIENT_ID: &'static str = "04b07795-8ddb-461a-bbee-02f9e1bf7b46";

/// Any work or school account, in its own tenant.
pub const DEFAULT_TENANT: &'static str = "organizations";

/// How long to leave the browser waiting before giving up on the redirect, in
/// seconds.
pub const INTERACTIVE_TIMEOUT: u64 = 300;

/// How long before a token expires it stops being worth handing out, in
/// nanoseconds.
pub const EXPIRY_MARGIN: u128 = 300_000_000_000;

/// One second, in nanoseconds.
pub const SECOND: u128 = 1_000_000_000;

/// Which Azure service a token is for. Entra issues per-resource tokens: one minted
/// for SQL is rejected by storage and the other way round.
#[derive(Debug, Clone, Copy, PartialEq, Eq, Structural)]
pub enum Resource {
    AzureSql,
    Storage,
}

impl Resource {
    pub open spec fn scope_text(self) -> Seq<char> {
        match self {
            Resource::AzureSql => "https://database.windows.net/.default"@,
            Resource::Storage => "https://storage.azure.com/.default"@,
        }
    }

    /// What is asked for: the resource, and a refresh token.
    pub open spec fn offline_scope(self) -> Seq<char> {
        self.scope_text() + " offline_access"@
    }

    pub fn scope(self) -> (r: &'static str)
        ensures
            r@ == self.scope_text(),
    {
        match self {
            Resource::AzureSql => "https://database.windows.net/.default",
            Resource::Storage => "https://storage.azure.com/.default",
        }
    }

    /// The scope with `offline_access`, which is what asks for a refresh token.
    fn offline(self) -> (r: String)
        ensures
            r@ == self.offline_scope(),
    {
        self.scope().to_owned().concat(" offline_access")
    }
}

/// Which application, in which tenant, is asking.
#[derive(Debug, PartialEq, Eq)]
pub struct Credential {
    pub tenant: String,
    pub client_id: String,
}

impl Default for Credential {
    fn default() -> (r: Self)
        ensures
            r.tenant@ == DEFAULT_TENANT@,
            r.client_id@ == AZURE_CLI_CLIENT_ID@,
    {
        Credential {
            tenant: DEFAULT_TENANT.to_owned(),
            client_id: AZURE_CLI_CLIENT_ID.to_owned(),
        }
    }
}

impl Clone for Credential {
    fn clone(&self) -> (r: Self)
        ensures
            r == *self,
    {
        Credential { tenant: self.tenant.clone(), client_id: self.client_id.clone() }
    }
}

/// A character that can stand in a tenant or an application id.
pub open spec fn id_char(c: char) -> bool {
    text::is_ascii_letter(c) || text::is_ascii_digit(c) || c == '-' || c == '.' || c == '_'
}

pub open spec fn all_id_chars(s: Seq<char>) -> bool {
    forall|i: int| 0 <= i < s.len() ==> id_char(#[trigger] s[i])
}

/// Nothing but dots, which a path takes for a step rather than a name.
pub open spec fn only_dots(s: Seq<char>) -> bool {
    forall|i: int| 0 <= i < s.len() ==> (#[trigger] s[i]) == '.'
}

/// The value, trimmed, or what is wrong with it.
pub open spec fn plain_id(value: Seq<char>, what: Seq<char>) -> Result<Seq<char>, Seq<char>> {
    let t = text::trim(value);
    if t.len() == 0 {
        Err(what + " must not be empty"@)
    } else if !all_id_chars(t) || only_dots(t) {
        Err("`"@ + t + "` is not a valid "@ + what + " — expected a GUID or a domain"@)
    } else {
        Ok(t)
    }
}

fn check_id(value: &str, what: &str) -> (r: Result<String, Error>)
    ensures
        match r {
            Ok(t) => plain_id(value@, what@) == Ok::<Seq<char>, Seq<char>>(t@),
            Err(e) => e matches Error::BadRequest(m) && plain_id(value@, what@) == Err::<
                Seq<char>,
                Seq<char>,
            >(m@),
        },
{
    let id = text::trimmed(value);
    if id.as_str().is_empty() {
        return Err(Error::BadRequest(what.to_owned().concat(" must not be empty")));
    }
    let v = text::chars_of(&id);
    let mut known = true;
    let mut dots = true;
    let mut i: usize = 0;
    while i < v.len()
        invariant
            i <= v.len(),
            v@ == id@,
            known == all_id_chars(id@.take(i as int)),
            dots == only_dots(id@.take(i as int)),
        decreases v.len() - i,
    {
        let c = v[i];
        let ghost before = id@.take(i as int);
        let ghost now = id@.take(i as int + 1);
        assert(now.drop_last() == before);
        assert(now.last() == c);
        let fits = text::ascii_letter(c) || text::ascii_digit(c) || c == '-' || c == '.' || c
            == '_';
        assert(fits == id_char(now[i as int]));
        assert(all_id_chars(now) == (all_id_chars(before) && fits)) by {
            assert(forall|j: int| 0 <= j < i ==> #[trigger] now[j] == before[j]);
            if all_id_chars(now) {
                assert forall|j: int| 0 <= j < before.len() implies id_char(
                    #[trigger] before[j],
                ) by {
                    assert(id_char(now[j]));
                }
            }
        }
        assert(only_dots(now) == (only_dots(before) && c == '.')) by {
            assert(forall|j: int| 0 <= j < i ==> #[trigger] now[j] == before[j]);
            if only_dots(now) {
                assert forall|j: int| 0 <= j < before.len() implies (#[trigger] before[j])
                    == '.' by {
                    assert(now[j] == '.');
                }
            }
        }
        known = known && fits;
        dots = dots && c == '.';
        i = i + 1;
    }
    assert(id@.take(i as int) == id@);
    if !known || dots {
        return Err(
            Error::BadRequest(
                "`".to_owned().concat(&id).concat("` is not a valid ").concat(what).concat(
                    " — expected a GUID or a domain",
                ),
            ),
        );
    }
    Ok(id)
}

/// The address of one of a tenant's endpoints.
pub open spec fn endpoint_of(tenant: Seq<char>, leaf: Seq<char>) -> Seq<char> {
    "https://login.microsoftonline.com/"@ + tenant + "/oauth2/v2.0/"@ + leaf
}

impl Credential {
    /// Refuse anything that is not a tenant or an application id.
    ///
    /// Both go into a URL by concatenation, so this is the check that keeps a crafted
    /// "tenant" from becoming a different authorisation endpoint.
    pub fn validated(&self) -> (r: Result<Credential, Error>)
        ensures
            match r {
                Ok(c) => plain_id(self.tenant@, "tenant"@) == Ok::<Seq<char>, Seq<char>>(
                    c.tenant@,
                ) && plain_id(self.client_id@, "application id"@) == Ok::<Seq<char>, Seq<char>>(
                    c.client_id@,
                ),
                Err(e) => e matches Error::BadRequest(m) && (plain_id(self.tenant@, "tenant"@)
                    == Err::<Seq<char>, Seq<char>>(m@) || plain_id(self.tenant@, "tenant"@) is Ok
                    && plain_id(self.client_id@, "application id"@) == Err::<
                    Seq<char>,
                    Seq<char>,
                >(m@)),
            },
    {
        let tenant = match check_id(&self.tenant, "tenant") {
            Ok(t) => t,
            Err(e) => return Err(e),
        };
        let client_id = match check_id(&self.client_id, "application id") {
            Ok(t) => t,
            Err(e) => return Err(e),
        };
        Ok(Credential { tenant, client_id })
    }

    pub fn endpoint(&self, leaf: &str) -> (r: String)
        ensures
            r@ == endpoint_of(self.tenant@, leaf@),
    {
        "https://login.microsoftonline.com/".to_owned().concat(&self.tenant).concat(
            "/oauth2/v2.0/",
        ).concat(leaf)
    }
}

/// Whatever a validated tenant is, it stays one segment of the address: nothing in it
/// can end the path or begin a query, and it is no step to here or up.
pub proof fn law_a_tenant_cannot_change_the_endpoint(value: Seq<char>, what: Seq<char>)
    ensures
        plain_id(value, what) matches Ok(t) ==> t.len() > 0 && !t.contains('/') && !t.contains('?')
            && !t.contains('#') && !t.contains('@') && !t.contains(':') && !t.contains('%')
            && !t.contains(' ') && !only_dots(t) && t != "."@ && t != ".."@,
{
    reveal_strlit(".");
    reveal_strlit("..");
    if let Ok(t) = plain_id(value, what) {
        assert forall|i: int| 0 <= i < t.len() implies id_char(#[trigger] t[i]) by {}
    }
}

/// What a completed sign-in leaves behind.
pub struct Tokens {
    pub access_token: String,
    /// Absent when the tenant declines to issue one.
    pub refresh_token: Option<String>,
    /// When the access token stops working, in nanoseconds since the Unix epoch.
    pub expires_at: u128,
    /// Who signed in, for display only.
    pub account: String,
}

/// The value of [`Tokens`].
pub struct TokensView {
    pub access_token: Seq<char>,
    pub refresh_token: Option<Seq<char>>,
    pub expires_at: u128,
    pub account: Seq<char>,
}

impl View for Tokens {
    type V = TokensView;

    open spec fn view(&self) -> TokensView {
        TokensView {
            access_token: self.access_token@,
            refresh_token: text::opt(self.refresh_token),
            expires_at: self.expires_at,
            account: self.account@,
        }
    }
}

impl TokensView {
    /// Worth using at `now`: it will still work once the margin has passed.
    pub open spec fn fresh(self, now: u128) -> bool {
        self.expires_at > now + EXPIRY_MARGIN
    }
}

impl Clone for Tokens {
    fn clone(&self) -> (r: Self)
        ensures
            r == *self,
    {
        Tokens {
            access_token: self.access_token.clone(),
            refresh_token: text::clone_opt(&self.refresh_token),
            expires_at: self.expires_at,
            account: self.account.clone(),
        }
    }
}

impl Tokens {
    /// Whether this token is worth using at `now`, the margin counted.
    pub fn fresh(&self, now: u128) -> (r: bool)
        ensures
            r == self@.fresh(now),
    {
        self.expires_at > EXPIRY_MARGIN && self.expires_at - EXPIRY_MARGIN > now
    }
}

/// What Entra answers a form with when it grants it.
pub struct TokenResponse {
    pub access_token: String,
    pub refresh_token: Option<String>,
    pub expires_in: Option<u64>,
}

/// What Entra answers a form with when it does not. `error` is a code such as
/// `invalid_grant`.
pub struct TokenError {
    pub error: String,
    pub error_description: Option<String>,
}

// ---------------------------------------------------------------------- claims

/// What a JSON object has under each of its names: the text where it is a string, and
/// nothing where it is anything else. Empty for a value that is not an object.
pub uninterp spec fn members(v: serde_json::Value) -> Map<Seq<char>, Option<Seq<char>>>;

/// The members of the JSON document those bytes spell, if they spell one.
pub uninterp spec fn json_members(bytes: Seq<u8>) -> Option<Map<Seq<char>, Option<Seq<char>>>>;

/// `serde_json::from_slice`: whether the bytes are a JSON document, and what it holds,
/// is a function of the bytes.
#[verifier::external_body]
fn parse_json(bytes: &[u8]) -> (r: Option<serde_json::Value>)
    ensures
        match r {
            Some(v) => json_members(bytes@) == Some(members(v)),
            None => json_members(bytes@) is None,
        },
{
    serde_json::from_slice(bytes).ok()
}

/// `serde_json::Value::get` and `serde_json::Value::as_str`: what the object has under
/// a name, and its text where it is a string.
#[verifier::external_body]
fn member(v: &serde_json::Value, name: &str) -> (r: Option<Option<String>>)
    ensures
        match r {
            Some(t) => members(*v).contains_key(name@) && members(*v)[name@] == text::opt(t),
            None => !members(*v).contains_key(name@),
        },
{
    v.get(name).map(|value| value.as_str().map(str::to_owned))
}

/// The bytes that unpadded URL-safe base64 stands for, if it is that.
pub uninterp spec fn base64_bytes(s: Seq<char>) -> Option<Seq<u8>>;

/// `base64::Engine::decode` on `URL_SAFE_NO_PAD`: a function of the text.
#[verifier::external_body]
fn from_base64(s: &str) -> (r: Option<Vec<u8>>)
    ensures
        match r {
            Some(b) => base64_bytes(s@) == Some(b@),
            None => base64_bytes(s@) is None,
        },
{
    URL_SAFE_NO_PAD.decode(s).ok()
}

/// Those bytes in unpadded URL-safe base64.
pub uninterp spec fn base64_text(bytes: Seq<u8>) -> Seq<char>;

/// A character of the URL-safe alphabet.
pub open spec fn url_safe(c: char) -> bool {
    text::is_ascii_letter(c) || text::is_ascii_digit(c) || c == '-' || c == '_'
}

/// `base64::Engine::encode` on `URL_SAFE_NO_PAD`: a function of the bytes, four
/// characters for three bytes without padding, all of the URL-safe alphabet.
#[verifier::external_body]
fn to_base64(bytes: &[u8]) -> (r: String)
    requires
        bytes@.len() <= usize::MAX / 2,
    ensures
        r@ == base64_text(bytes@),
        r@.len() == (bytes@.len() * 4 + 2) / 3,
        forall|i: int| 0 <= i < r@.len() ==> url_safe(#[trigger] r@[i]),
{
    URL_SAFE_NO_PAD.encode(bytes)
}

/// The SHA-256 digest of those bytes.
pub uninterp spec fn sha256(bytes: Seq<u8>) -> Seq<u8>;

/// `sha2::Sha256::digest`: 32 bytes, a function of the input.
#[verifier::external_body]
fn digest(bytes: &[u8]) -> (r: Vec<u8>)
    ensures
        r@ == sha256(bytes@),
        r@.len() == 32,
{
    Sha256::digest(bytes).to_vec()
}

pub open spec fn lower_hex(c: char) -> bool {
    text::is_ascii_digit(c) || ('a' <= c && c <= 'f')
}

/// `uuid::Uuid::new_v4` in its simple form: thirty-two lower-case hexadecimal digits.
/// Which ones is chance.
#[verifier::external_body]
pub(crate) fn random_hex() -> (r: String)
    ensures
        r@.len() == 32,
        forall|i: int| 0 <= i < r@.len() ==> lower_hex(#[trigger] r@[i]),
{
    uuid::Uuid::new_v4().simple().to_string()
}

/// The claims of a token: the middle of its three dot-separated segments, decoded and
/// read as JSON. Never validated, and only ever displayed.
pub open spec fn claims(token: Seq<char>) -> Option<Map<Seq<char>, Option<Seq<char>>>> {
    let segments = text::split(token, '.');
    if segments.len() < 2 {
        None
    } else {
        match base64_bytes(segments[1]) {
            Some(bytes) => json_members(bytes),
            None => None,
        }
    }
}

fn claims_of(access_token: &str) -> (r: Option<serde_json::Value>)
    ensures
        match r {
            Some(v) => claims(access_token@) == Some(members(v)),
            None => claims(access_token@) is None,
        },
{
    let segments = text::split_all(access_token, '.');
    assert(text::views(segments@) == text::split(access_token@, '.'));
    if segments.len() < 2 {
        return None;
    }
    assert(text::split(access_token@, '.')[1] == segments@[1]@);
    match from_base64(&segments[1]) {
        Some(bytes) => parse_json(&bytes),
        None => None,
    }
}

/// The text under a name, where there is any.
pub open spec fn string_claim(
    claims: Map<Seq<char>, Option<Seq<char>>>,
    name: Seq<char>,
) -> Option<Seq<char>> {
    if claims.contains_key(name) {
        claims[name]
    } else {
        None
    }
}

/// The name in a set of claims: the first of the five that is there.
pub open spec fn account_in(claims: Map<Seq<char>, Option<Seq<char>>>) -> Seq<char> {
    if string_claim(claims, "upn"@) is Some {
        string_claim(claims, "upn"@)->0
    } else if string_claim(claims, "preferred_username"@) is Some {
        string_claim(claims, "preferred_username"@)->0
    } else if string_claim(claims, "unique_name"@) is Some {
        string_claim(claims, "unique_name"@)->0
    } else if string_claim(claims, "email"@) is Some {
        string_claim(claims, "email"@)->0
    } else if string_claim(claims, "appid"@) is Some {
        string_claim(claims, "appid"@)->0
    } else {
        Seq::empty()
    }
}

/// The name in a token. Anything unexpected gives an empty name.
pub open spec fn account_named(token: Seq<char>) -> Seq<char> {
    match claims(token) {
        Some(c) => account_in(c),
        None => Seq::empty(),
    }
}

fn string_of(v: &serde_json::Value, name: &str) -> (r: Option<String>)
    ensures
        text::opt(r) == string_claim(members(*v), name@),
{
    match member(v, name) {
        Some(t) => t,
        None => None,
    }
}

/// The name in a set of claims.
fn account_from(v: &serde_json::Value) -> (r: String)
    ensures
        r@ == account_in(members(*v)),
{
    if let Some(name) = string_of(v, "upn") {
        return name;
    }
    if let Some(name) = string_of(v, "preferred_username") {
        return name;
    }
    if let Some(name) = string_of(v, "unique_name") {
        return name;
    }
    if let Some(name) = string_of(v, "email") {
        return name;
    }
    if let Some(name) = string_of(v, "appid") {
        return name;
    }
    String::new()
}

/// The name in a token, for display. Never trusted for anything: a token without one
/// costs a name, not an error.
pub fn account_of(access_token: &str) -> (r: String)
    ensures
        r@ == account_named(access_token@),
{
    match claims_of(access_token) {
        Some(v) => account_from(&v),
        None => String::new(),
    }
}

/// What a set of claims says about a token: what it is for, which application asked,
/// which tenant issued it, and to whom.
pub open spec fn described(claims: Map<Seq<char>, Option<Seq<char>>>) -> Seq<char> {
    let or_dash = |t: Option<Seq<char>>|
        match t {
            Some(t) => t,
            None => "—"@,
        };
    let app = if claims.contains_key("appid"@) {
        claims["appid"@]
    } else {
        string_claim(claims, "azp"@)
    };
    "aud="@ + or_dash(string_claim(claims, "aud"@)) + " appid="@ + or_dash(app) + " tid="@
        + or_dash(string_claim(claims, "tid"@)) + " upn="@ + account_in(claims)
}

fn or_dash(t: Option<String>) -> (r: String)
    ensures
        r@ == (match t {
            Some(t) => t@,
            None => "—"@,
        }),
{
    match t {
        Some(t) => t,
        None => "—".to_owned(),
    }
}

/// The claims worth naming when a server refuses a token. Claims only, never the
/// token.
pub fn describe_token(access_token: &str) -> (r: String)
    ensures
        r@ == (match claims(access_token@) {
            Some(c) => described(c),
            None => "not a readable token"@,
        }),
{
    let v = match claims_of(access_token) {
        Some(v) => v,
        None => return "not a readable token".to_owned(),
    };
    // `appid` in a v1 token, `azp` in a v2 one.
    let app = match member(&v, "appid") {
        Some(t) => t,
        None => string_of(&v, "azp"),
    };
    "aud=".to_owned().concat(&or_dash(string_of(&v, "aud"))).concat(" appid=").concat(
        &or_dash(app),
    ).concat(" tid=").concat(&or_dash(string_of(&v, "tid"))).concat(" upn=").concat(
        &account_from(&v),
    )
}

/// What a granted form leaves behind, an hour being assumed where Entra does not say.
pub open spec fn tokens_of(
    access_token: Seq<char>,
    refresh_token: Option<Seq<char>>,
    expires_in: Option<u64>,
    now: u128,
) -> TokensView {
    let lifetime: u64 = match expires_in {
        Some(n) => n,
        None => 3600,
    };
    TokensView {
        access_token,
        refresh_token,
        expires_at: (now + lifetime * SECOND) as u128,
        account: account_named(access_token),
    }
}

/// What a granted form leaves behind, `now` being when it was answered.
pub fn tokens_from(response: TokenResponse, now: u128) -> (r: Tokens)
    requires
        now <= u64::MAX * SECOND,
    ensures
        r@ == tokens_of(
            response.access_token@,
            text::opt(response.refresh_token),
            response.expires_in,
            now,
        ),
        r.expires_at >= now,
{
    let lifetime: u64 = match response.expires_in {
        Some(n) => n,
        None => 3600,
    };
    assert(lifetime * SECOND <= u64::MAX * SECOND) by (nonlinear_arith)
        requires
            lifetime <= u64::MAX,
            SECOND == 1_000_000_000,
    ;
    Tokens {
        account: account_of(&response.access_token),
        access_token: response.access_token,
        refresh_token: response.refresh_token,
        expires_at: now + lifetime as u128 * SECOND,
    }
}

// ----------------------------------------------------------------------- forms

/// A form to post: where, and what is in it.
#[derive(Debug, Clone)]
pub struct Form {
    pub url: String,
    pub fields: Vec<(String, String)>,
}

pub open spec fn field_views(v: Seq<(String, String)>) -> Seq<(Seq<char>, Seq<char>)> {
    Seq::new(v.len(), |i: int| (v[i].0@, v[i].1@))
}

impl View for Form {
    type V = (Seq<char>, Seq<(Seq<char>, Seq<char>)>);

    open spec fn view(&self) -> (Seq<char>, Seq<(Seq<char>, Seq<char>)>) {
        (self.url@, field_views(self.fields@))
    }
}

impl Form {
    fn to(url: String) -> (r: Form)
        ensures
            r@ == (url@, Seq::<(Seq<char>, Seq<char>)>::empty()),
    {
        let r = Form { url, fields: Vec::new() };
        assert(field_views(r.fields@) == Seq::<(Seq<char>, Seq<char>)>::empty());
        r
    }

    fn with(self, name: &str, value: &str) -> (r: Form)
        ensures
            r@ == (self@.0, self@.1.push((name@, value@))),
    {
        let ghost before = self@.1;
        let mut fields = self.fields;
        fields.push((name.to_owned(), value.to_owned()));
        assert(field_views(fields@) == before.push((name@, value@)));
        Form { url: self.url, fields }
    }
}

/// The form that trades a refresh token for an access token.
pub fn refresh_form(credential: &Credential, resource: Resource, token: &str) -> (r: Result<
    Form,
    Error,
>)
    ensures
        match r {
            Ok(form) => {
                &&& plain_id(credential.tenant@, "tenant"@) matches Ok(tenant)
                &&& plain_id(credential.client_id@, "application id"@) matches Ok(client)
                &&& form@ == (
                    endpoint_of(tenant, "token"@),
                    seq![
                        ("client_id"@, client),
                        ("grant_type"@, "refresh_token"@),
                        ("refresh_token"@, token@),
                        ("scope"@, resource.offline_scope()),
                    ],
                )
            },
            Err(e) => match plain_id(credential.tenant@, "tenant"@) {
                Err(why) => e@ == ErrorView::BadRequest(why),
                Ok(_) => plain_id(credential.client_id@, "application id"@) matches Err(why) && e@
                    == ErrorView::BadRequest(why),
            },
        },
{
    let valid = match credential.validated() {
        Ok(c) => c,
        Err(e) => return Err(e),
    };
    let form = Form::to(valid.endpoint("token")).with("client_id", &valid.client_id).with(
        "grant_type",
        "refresh_token",
    ).with("refresh_token", token).with("scope", &resource.offline());
    assert(form@.1 =~= seq![
        ("client_id"@, valid.client_id@),
        ("grant_type"@, "refresh_token"@),
        ("refresh_token"@, token@),
        ("scope"@, resource.offline_scope()),
    ]);
    Ok(form)
}

/// What is made of the answer to [`refresh_form`]. The grant being gone is the one
/// failure worth naming: no retry will bring it back.
pub fn refreshed(outcome: Result<Tokens, String>) -> (r: Result<Tokens, Error>)
    ensures
        match outcome {
            Ok(tokens) => r == Ok::<Tokens, Error>(tokens),
            Err(code) => r matches Err(e) && e@ == ErrorView::BadRequest(
                if code@ == "invalid_grant"@ {
                    "the Entra sign-in has expired — sign in again on this source"@
                } else {
                    "cannot renew the Entra token: "@ + code@
                },
            ),
        },
{
    match outcome {
        Ok(tokens) => Ok(tokens),
        Err(code) => if text::same(&code, "invalid_grant") {
            Err(
                Error::BadRequest(
                    "the Entra sign-in has expired — sign in again on this source".to_owned(),
                ),
            )
        } else {
            Err(Error::BadRequest("cannot renew the Entra token: ".to_owned().concat(&code)))
        },
    }
}

/// The code a refused form carries, or a refusal that cannot be read.
pub fn refusal(error: Option<TokenError>, status: &str) -> (r: Result<String, Error>)
    ensures
        match error {
            Some(e) => r == Ok::<String, Error>(e.error),
            None => r matches Err(e) && e@ == ErrorView::BadRequest(
                "Entra refused the sign-in ("@ + status@ + ")"@,
            ),
        },
{
    match error {
        Some(e) => Ok(e.error),
        None => Err(
            Error::BadRequest(
                "Entra refused the sign-in (".to_owned().concat(status).concat(")"),
            ),
        ),
    }
}

/// The described failure, for the forms where there is nothing to retry.
pub fn granted_once(outcome: Result<Tokens, String>, doing: &str) -> (r: Result<Tokens, Error>)
    ensures
        match outcome {
            Ok(tokens) => r == Ok::<Tokens, Error>(tokens),
            Err(code) => r matches Err(e) && e@ == ErrorView::BadRequest(
                doing@ + ": Entra said "@ + code@,
            ),
        },
{
    match outcome {
        Ok(tokens) => Ok(tokens),
        Err(code) => Err(
            Error::BadRequest(doing.to_owned().concat(": Entra said ").concat(&code)),
        ),
    }
}

// --------------------------------------------------------- authorization code

/// The challenge that stands for a PKCE verifier.
pub open spec fn challenge_of(verifier: Seq<char>) -> Seq<char> {
    base64_text(sha256(encode_utf8(verifier)))
}

fn challenge(verifier: &str) -> (r: String)
    ensures
        r@ == challenge_of(verifier@),
        r@.len() == 43,
        forall|i: int| 0 <= i < r@.len() ==> url_safe(#[trigger] r@[i]),
{
    let d = digest(verifier.as_bytes());
    to_base64(&d)
}

/// PKCE: a verifier to keep and the challenge that stands for it. Sixty-four
/// hexadecimal characters, inside PKCE's range and its unreserved alphabet.
pub fn pkce() -> (r: (String, String))
    ensures
        r.0@.len() == 64,
        forall|i: int| 0 <= i < r.0@.len() ==> lower_hex(#[trigger] r.0@[i]),
        r.1@ == challenge_of(r.0@),
        r.1@.len() == 43,
        forall|i: int| 0 <= i < r.1@.len() ==> url_safe(#[trigger] r.1@[i]),
{
    let first = random_hex();
    let second = random_hex();
    let ghost a = first@;
    let ghost b = second@;
    let verifier = first.concat(&second);
    assert forall|i: int| 0 <= i < verifier@.len() implies lower_hex(#[trigger] verifier@[i]) by {
        if i < 32 {
            assert(verifier@[i] == a[i]);
        } else {
            assert(verifier@[i] == b[i - 32]);
        }
    }
    let c = challenge(&verifier);
    (verifier, c)
}

/// A byte that stands for itself in a URL.
pub open spec fn unreserved(b: u8) -> bool {
    (0x41 <= b <= 0x5a) || (0x61 <= b <= 0x7a) || (0x30 <= b <= 0x39) || b == 0x2d || b == 0x2e
        || b == 0x5f || b == 0x7e
}

/// The upper-case hexadecimal digit for a value below sixteen.
pub open spec fn hex_digit(n: u8) -> char {
    if n < 10 {
        (0x30 + n) as char
    } else {
        (0x37 + n) as char
    }
}

/// A byte as it stands in a URL: itself, or a percent sign and two hexadecimal
/// digits.
pub open spec fn escaped_byte(b: u8) -> Seq<char> {
    if unreserved(b) {
        seq![b as char]
    } else {
        seq!['%', hex_digit(b / 16), hex_digit(b % 16)]
    }
}

pub open spec fn escaped_bytes(bytes: Seq<u8>) -> Seq<char>
    decreases bytes.len(),
{
    if bytes.len() == 0 {
        Seq::empty()
    } else {
        escaped_bytes(bytes.drop_last()) + escaped_byte(bytes.last())
    }
}

/// A value as it stands in a URL.
pub open spec fn escaped(value: Seq<char>) -> Seq<char> {
    escaped_bytes(encode_utf8(value))
}

fn hex_of(n: u8) -> (c: char)
    requires
        n < 16,
    ensures
        c == hex_digit(n),
{
    if n < 10 {
        (0x30u8 + n) as char
    } else {
        (0x37u8 + n) as char
    }
}

/// Percent-encode a value for a URL.
pub fn encode(value: &str) -> (r: String)
    ensures
        r@ == escaped(value@),
{
    let bytes = value.as_bytes();
    let mut out = String::new();
    let mut i: usize = 0;
    assert(bytes@.take(0) == Seq::<u8>::empty());
    while i < bytes.len()
        invariant
            i <= bytes.len(),
            bytes@ == encode_utf8(value@),
            out@ == escaped_bytes(bytes@.take(i as int)),
        decreases bytes.len() - i,
    {
        let b = bytes[i];
        let ghost before = out@;
        proof {
            assert(bytes@.take(i as int + 1).drop_last() == bytes@.take(i as int));
        }
        if (0x41 <= b && b <= 0x5a) || (0x61 <= b && b <= 0x7a) || (0x30 <= b && b <= 0x39) || b
            == 0x2d || b == 0x2e || b == 0x5f || b == 0x7e {
            out.push(b as char);
        } else {
            out.push('%');
            out.push(hex_of(b / 16));
            out.push(hex_of(b % 16));
        }
        assert(out@ == before + escaped_byte(b));
        i = i + 1;
    }
    assert(bytes@.take(i as int) == bytes@);
    out
}

/// The value of a hexadecimal digit, in either case.
pub open spec fn hex_value(b: u8) -> Option<u8> {
    if 0x30 <= b <= 0x39 {
        Some((b - 0x30) as u8)
    } else if 0x41 <= b <= 0x46 {
        Some((b - 0x37) as u8)
    } else if 0x61 <= b <= 0x66 {
        Some((b - 0x57) as u8)
    } else {
        None
    }
}

/// The byte two characters after a percent sign stand for: two hexadecimal digits, or
/// a plus sign and one.
pub open spec fn hex_pair(a: u8, b: u8) -> Option<u8> {
    match hex_value(b) {
        None => None,
        Some(low) => if a == 0x2b {
            Some(low)
        } else {
            match hex_value(a) {
                Some(high) => Some((high * 16 + low) as u8),
                None => None,
            }
        },
    }
}

/// The bytes a URL-encoded value stands for. A percent sign that is not followed by a
/// byte stands for itself, and a plus sign for a space.
pub open spec fn unescaped(b: Seq<u8>) -> Seq<u8>
    decreases b.len(),
{
    if b.len() == 0 {
        Seq::empty()
    } else if b[0] == 0x25 && b.len() > 2 && hex_pair(b[1], b[2]) is Some {
        seq![hex_pair(b[1], b[2])->0] + unescaped(b.skip(3))
    } else if b[0] == 0x2b {
        seq![0x20u8] + unescaped(b.skip(1))
    } else {
        seq![b[0]] + unescaped(b.skip(1))
    }
}

fn hex_value_of(b: u8) -> (r: Option<u8>)
    ensures
        r == hex_value(b),
{
    if 0x30 <= b && b <= 0x39 {
        Some(b - 0x30)
    } else if 0x41 <= b && b <= 0x46 {
        Some(b - 0x37)
    } else if 0x61 <= b && b <= 0x66 {
        Some(b - 0x57)
    } else {
        None
    }
}

fn hex_pair_of(a: u8, b: u8) -> (r: Option<u8>)
    ensures
        r == hex_pair(a, b),
{
    match hex_value_of(b) {
        None => None,
        Some(low) => if a == 0x2b {
            Some(low)
        } else {
            match hex_value_of(a) {
                Some(high) => Some(high * 16 + low),
                None => None,
            }
        },
    }
}

/// Read a percent-encoded value.
pub fn decode(value: &str) -> (r: String)
    ensures
        r@ == text::lossy(unescaped(encode_utf8(value@))),
{
    let bytes = value.as_bytes();
    let ghost all = bytes@;
    let mut out: Vec<u8> = Vec::new();
    let mut index: usize = 0;
    assert(all.skip(0) == all);
    assert(out@ + unescaped(all) == unescaped(all));
    while index < bytes.len()
        invariant
            index <= bytes.len(),
            bytes@ == all,
            out@ + unescaped(all.skip(index as int)) == unescaped(all),
        decreases bytes.len() - index,
    {
        let ghost rest = all.skip(index as int);
        let ghost before = out@;
        let b = bytes[index];
        assert(rest[0] == b);
        let mut taken: Option<u8> = None;
        if b == 0x25 && bytes.len() - index > 2 {
            assert(rest[1] == bytes@[index + 1]);
            assert(rest[2] == bytes@[index + 2]);
            taken = hex_pair_of(bytes[index + 1], bytes[index + 2]);
        }
        match taken {
            Some(byte) => {
                out.push(byte);
                index = index + 3;
                proof {
                    assert(rest.skip(3) == all.skip(index as int));
                    assert(before + (seq![byte] + unescaped(rest.skip(3))) == out@ + unescaped(
                        rest.skip(3),
                    ));
                }
            },
            None => {
                let c: u8 = if b == 0x2b {
                    0x20
                } else {
                    b
                };
                out.push(c);
                index = index + 1;
                proof {
                    assert(rest.skip(1) == all.skip(index as int));
                    assert(before + (seq![c] + unescaped(rest.skip(1))) == out@ + unescaped(
                        rest.skip(1),
                    ));
                }
            },
        }
    }
    assert(all.skip(index as int) == Seq::<u8>::empty());
    assert(out@ + Seq::<u8>::empty() == out@);
    text::from_utf8_lossy(&out)
}

proof fn lemma_escaped_concat(a: Seq<u8>, b: Seq<u8>)
    ensures
        escaped_bytes(a + b) == escaped_bytes(a) + escaped_bytes(b),
    decreases b.len(),
{
    if b.len() == 0 {
        assert(a + b == a);
        assert(escaped_bytes(a) + escaped_bytes(b) == escaped_bytes(a));
    } else {
        assert((a + b).drop_last() == a + b.drop_last());
        lemma_escaped_concat(a, b.drop_last());
        assert((escaped_bytes(a) + escaped_bytes(b.drop_last())) + escaped_byte(b.last())
            == escaped_bytes(a) + (escaped_bytes(b.drop_last()) + escaped_byte(b.last())));
    }
}

/// A character a percent-encoded value is made of.
pub open spec fn url_char(c: char) -> bool {
    c <= '\u{7f}' && (unreserved(c as u8) || c == '%')
}

proof fn lemma_escaped_byte(b: u8)
    ensures
        forall|i: int| 0 <= i < escaped_byte(b).len() ==> url_char(#[trigger] escaped_byte(b)[i]),
        !unreserved(b) ==> hex_pair(hex_digit(b / 16) as u8, hex_digit(b % 16) as u8) == Some(b),
        b != 0x25 || !unreserved(b),
        b != 0x2b || !unreserved(b),
{
}

/// Nothing in an encoded value can break out of the place it is put in: it is made of
/// letters, digits, `-`, `.`, `_`, `~` and `%`, so there is no quote, no `&`, no space
/// and no separator in it.
pub proof fn law_an_encoded_value_cannot_break_out(value: Seq<char>)
    ensures
        forall|i: int| 0 <= i < escaped(value).len() ==> url_char(#[trigger] escaped(value)[i]),
{
    lemma_escaped_alphabet(encode_utf8(value));
}

proof fn lemma_escaped_alphabet(b: Seq<u8>)
    ensures
        forall|i: int| 0 <= i < escaped_bytes(b).len() ==> url_char(#[trigger] escaped_bytes(b)[i]),
    decreases b.len(),
{
    if b.len() > 0 {
        lemma_escaped_alphabet(b.drop_last());
        lemma_escaped_byte(b.last());
        let head = escaped_bytes(b.drop_last());
        assert forall|i: int| 0 <= i < escaped_bytes(b).len() implies url_char(
            #[trigger] escaped_bytes(b)[i],
        ) by {
            if i < head.len() {
                assert(escaped_bytes(b)[i] == head[i]);
            } else {
                assert(escaped_bytes(b)[i] == escaped_byte(b.last())[i - head.len()]);
            }
        }
    }
}

/// The characters of an ASCII text as bytes.
spec fn narrow(s: Seq<char>) -> Seq<u8> {
    Seq::new(s.len(), |i: int| s[i] as u8)
}

proof fn lemma_unescape_escaped(b: Seq<u8>)
    ensures
        unescaped(narrow(escaped_bytes(b))) == b,
    decreases b.len(),
{
    if b.len() == 0 {
        assert(narrow(escaped_bytes(b)) == Seq::<u8>::empty());
    } else {
        let first = b[0];
        let rest = b.skip(1);
        assert(b == seq![first] + rest);
        lemma_escaped_concat(seq![first], rest);
        assert(seq![first].drop_last() == Seq::<u8>::empty());
        assert(escaped_bytes(seq![first]) == escaped_byte(first)) by {
            reveal_with_fuel(escaped_bytes, 2);
            assert(Seq::<char>::empty() + escaped_byte(first) == escaped_byte(first));
        }
        let e = escaped_byte(first);
        let n = narrow(escaped_bytes(b));
        assert(n == narrow(e) + narrow(escaped_bytes(rest)));
        lemma_escaped_byte(first);
        lemma_unescape_escaped(rest);
        if unreserved(first) {
            assert(n[0] == first);
            assert(n.skip(1) == narrow(escaped_bytes(rest)));
        } else {
            assert(n[0] == 0x25);
            assert(n[1] == hex_digit(first / 16) as u8);
            assert(n[2] == hex_digit(first % 16) as u8);
            assert(n.skip(3) == narrow(escaped_bytes(rest)));
        }
    }
}

/// Decoding gives back what was encoded, whatever it was.
pub proof fn law_decoding_undoes_encoding(value: Seq<char>)
    ensures
        text::lossy(unescaped(encode_utf8(escaped(value)))) == value,
{
    let bytes = encode_utf8(value);
    let e = escaped(value);
    lemma_escaped_alphabet(bytes);
    assert(is_ascii_chars(e)) by {
        assert forall|i: int| 0 <= i < e.len() implies '\u{0}' <= #[trigger] e[i] <= '\u{7f}' by {
            assert(url_char(e[i]));
            text::lemma_char(e[i]);
        }
    }
    is_ascii_chars_encode_utf8(e);
    assert(encode_utf8(e) == narrow(e));
    lemma_unescape_escaped(bytes);
    encode_utf8_valid_utf8(value);
    encode_utf8_decode_utf8(value);
}

/// The URL the browser is sent to. Every parameter on it is required.
pub open spec fn authorize_address(
    tenant: Seq<char>,
    client_id: Seq<char>,
    redirect: Seq<char>,
    scope: Seq<char>,
    state: Seq<char>,
    challenge: Seq<char>,
) -> Seq<char> {
    endpoint_of(tenant, "authorize"@) + "?client_id="@ + escaped(client_id)
        + "&response_type=code&redirect_uri="@ + escaped(redirect) + "&response_mode=query&scope="@
        + escaped(scope) + "&state="@ + state + "&code_challenge="@ + challenge
        + "&code_challenge_method=S256&prompt=select_account"@
}

pub fn authorize_url(
    credential: &Credential,
    redirect: &str,
    scope: &str,
    state: &str,
    challenge: &str,
) -> (r: String)
    ensures
        r@ == authorize_address(
            credential.tenant@,
            credential.client_id@,
            redirect@,
            scope@,
            state@,
            challenge@,
        ),
{
    credential.endpoint("authorize").concat("?client_id=").concat(
        &encode(&credential.client_id),
    ).concat("&response_type=code&redirect_uri=").concat(&encode(redirect)).concat(
        "&response_mode=query&scope=",
    ).concat(&encode(scope)).concat("&state=").concat(state).concat("&code_challenge=").concat(
        challenge,
    ).concat("&code_challenge_method=S256&prompt=select_account")
}

/// A browser sign-in about to be made: where to send the browser, and what to keep
/// until it comes back.
pub struct SignInStart {
    pub url: String,
    pub redirect: String,
    pub verifier: String,
    pub state: String,
}

/// Begin a browser sign-in whose redirect comes to `port` on this machine. The
/// verifier and the state are chance; everything else in the address is not.
pub fn interactive_start(credential: &Credential, resource: Resource, port: u16) -> (r: SignInStart)
    ensures
        r.redirect@ == "http://localhost:"@ + text::decimal(port as nat),
        r.url@ == authorize_address(
            credential.tenant@,
            credential.client_id@,
            r.redirect@,
            resource.offline_scope(),
            r.state@,
            challenge_of(r.verifier@),
        ),
        r.verifier@.len() == 64,
        r.state@.len() == 32,
        forall|i: int| 0 <= i < r.state@.len() ==> lower_hex(#[trigger] r.state@[i]),
{
    let redirect = "http://localhost:".to_owned().concat(&text::decimal_of(port as u64));
    let (verifier, challenge) = pkce();
    let state = random_hex();
    let url = authorize_url(credential, &redirect, &resource.offline(), &state, &challenge);
    SignInStart { url, redirect, verifier, state }
}

/// The command that opens an address in the desktop's browser.
#[derive(Debug, Clone)]
pub struct BrowserCommand {
    pub program: String,
    pub argument: String,
    /// The argument is command-line text, handed on as it stands: the Windows shell reads
    /// it, and what quotes for spaces would not quote for `&`.
    pub raw: bool,
}

/// The value of a [`BrowserCommand`].
pub struct BrowserCommandView {
    pub program: Seq<char>,
    pub argument: Seq<char>,
    pub raw: bool,
}

impl View for BrowserCommand {
    type V = BrowserCommandView;

    open spec fn view(&self) -> BrowserCommandView {
        BrowserCommandView { program: self.program@, argument: self.argument@, raw: self.raw }
    }
}

/// The command that opens `url` in the desktop's browser.
///
/// An authorisation address is mostly `&`, which the Windows shell takes for the end of a
/// command unless it stands in quotes. The empty pair of quotes is the window title, which
/// `start` would otherwise take the address for.
pub fn browser_command(url: &str, windows: bool, macos: bool) -> (r: BrowserCommand)
    ensures
        r@ == (if windows {
            BrowserCommandView {
                program: "cmd"@,
                argument: "/c start \"\" \""@ + url@ + "\""@,
                raw: true,
            }
        } else {
            BrowserCommandView {
                program: if macos {
                    "open"@
                } else {
                    "xdg-open"@
                },
                argument: url@,
                raw: false,
            }
        }),
{
    if windows {
        BrowserCommand {
            program: "cmd".to_owned(),
            argument: "/c start \"\" \"".to_owned().concat(url).concat("\""),
            raw: true,
        }
    } else if macos {
        BrowserCommand { program: "open".to_owned(), argument: url.to_owned(), raw: false }
    } else {
        BrowserCommand { program: "xdg-open".to_owned(), argument: url.to_owned(), raw: false }
    }
}

/// No character is a double quote.
pub open spec fn unquoted(s: Seq<char>) -> bool {
    forall|i: int| 0 <= i < s.len() ==> #[trigger] s[i] != '"'
}

proof fn lemma_unquoted(a: Seq<char>, b: Seq<char>)
    requires
        unquoted(a),
        unquoted(b),
    ensures
        unquoted(a + b),
{
    assert forall|i: int| 0 <= i < (a + b).len() implies #[trigger] (a + b)[i] != '"' by {
        if i < a.len() {
            assert((a + b)[i] == a[i]);
        } else {
            assert((a + b)[i] == b[i - a.len()]);
        }
    }
}

proof fn lemma_escaped_is_unquoted(value: Seq<char>)
    ensures
        unquoted(escaped(value)),
{
    law_an_encoded_value_cannot_break_out(value);
    let e = escaped(value);
    assert forall|i: int| 0 <= i < e.len() implies #[trigger] e[i] != '"' by {
        assert(url_char(e[i]));
    }
}

/// What makes quoting an authorisation address safe: with a tenant that was checked, and
/// a state and a challenge that hold no quote, nothing in it can close the quotes.
pub proof fn law_an_address_stays_in_its_quotes(
    tenant: Seq<char>,
    client_id: Seq<char>,
    redirect: Seq<char>,
    scope: Seq<char>,
    state: Seq<char>,
    challenge: Seq<char>,
)
    requires
        all_id_chars(tenant),
        unquoted(state),
        unquoted(challenge),
    ensures
        unquoted(authorize_address(tenant, client_id, redirect, scope, state, challenge)),
{
    reveal_strlit("https://login.microsoftonline.com/");
    reveal_strlit("/oauth2/v2.0/");
    reveal_strlit("authorize");
    reveal_strlit("?client_id=");
    reveal_strlit("&response_type=code&redirect_uri=");
    reveal_strlit("&response_mode=query&scope=");
    reveal_strlit("&state=");
    reveal_strlit("&code_challenge=");
    reveal_strlit("&code_challenge_method=S256&prompt=select_account");
    assert(unquoted(tenant)) by {
        assert forall|i: int| 0 <= i < tenant.len() implies #[trigger] tenant[i] != '"' by {
            assert(id_char(tenant[i]));
        }
    }
    lemma_escaped_is_unquoted(client_id);
    lemma_escaped_is_unquoted(redirect);
    lemma_escaped_is_unquoted(scope);
    let a = "https://login.microsoftonline.com/"@;
    lemma_unquoted(a, tenant);
    lemma_unquoted(a + tenant, "/oauth2/v2.0/"@);
    lemma_unquoted(a + tenant + "/oauth2/v2.0/"@, "authorize"@);
    let b = endpoint_of(tenant, "authorize"@);
    lemma_unquoted(b, "?client_id="@);
    lemma_unquoted(b + "?client_id="@, escaped(client_id));
    let c = b + "?client_id="@ + escaped(client_id);
    lemma_unquoted(c, "&response_type=code&redirect_uri="@);
    lemma_unquoted(c + "&response_type=code&redirect_uri="@, escaped(redirect));
    let d = c + "&response_type=code&redirect_uri="@ + escaped(redirect);
    lemma_unquoted(d, "&response_mode=query&scope="@);
    lemma_unquoted(d + "&response_mode=query&scope="@, escaped(scope));
    let e = d + "&response_mode=query&scope="@ + escaped(scope);
    lemma_unquoted(e, "&state="@);
    lemma_unquoted(e + "&state="@, state);
    let f = e + "&state="@ + state;
    lemma_unquoted(f, "&code_challenge="@);
    lemma_unquoted(f + "&code_challenge="@, challenge);
    lemma_unquoted(
        f + "&code_challenge="@ + challenge,
        "&code_challenge_method=S256&prompt=select_account"@,
    );
}

/// The form that trades the authorisation code for tokens.
pub fn code_form(
    credential: &Credential,
    resource: Resource,
    code: &str,
    redirect: &str,
    verifier: &str,
) -> (r: Form)
    ensures
        r@ == (
            endpoint_of(credential.tenant@, "token"@),
            seq![
                ("client_id"@, credential.client_id@),
                ("grant_type"@, "authorization_code"@),
                ("code"@, code@),
                ("redirect_uri"@, redirect@),
                ("code_verifier"@, verifier@),
                ("scope"@, resource.offline_scope()),
            ],
        ),
{
    let form = Form::to(credential.endpoint("token")).with(
        "client_id",
        &credential.client_id,
    ).with("grant_type", "authorization_code").with("code", code).with(
        "redirect_uri",
        redirect,
    ).with("code_verifier", verifier).with("scope", &resource.offline());
    assert(form@.1 =~= seq![
        ("client_id"@, credential.client_id@),
        ("grant_type"@, "authorization_code"@),
        ("code"@, code@),
        ("redirect_uri"@, redirect@),
        ("code_verifier"@, verifier@),
        ("scope"@, resource.offline_scope()),
    ]);
    form
}

// -------------------------------------------------------------------- redirect

/// Being anything but white space.
pub open spec fn visible() -> spec_fn(char) -> bool {
    |c: char| !text::is_white(c)
}

/// The second of the words white space separates.
pub open spec fn second_word(s: Seq<char>) -> Option<Seq<char>> {
    let t = text::trim_start(s);
    let u = text::trim_start(t.skip(text::run(t, visible()) as int));
    let n = text::run(u, visible());
    if n == 0 {
        None
    } else {
        Some(u.take(n as int))
    }
}

fn visible_from(v: &Vec<char>, from: usize) -> (n: usize)
    requires
        from <= v.len(),
    ensures
        n == text::run(v@.skip(from as int), visible()),
        from + n <= v.len(),
{
    let ghost s = v@.skip(from as int);
    let mut i: usize = from;
    while i < v.len() && !text::white_char(v[i])
        invariant
            from <= i <= v.len(),
            s == v@.skip(from as int),
            forall|j: int| 0 <= j < i - from ==> visible()(#[trigger] s[j]),
        decreases v.len() - i,
    {
        assert(s[i - from] == v@[i as int]);
        i = i + 1;
    }
    proof {
        if i < v.len() {
            assert(s[i - from] == v@[i as int]);
        }
        text::lemma_run_is(s, visible(), i - from);
    }
    i - from
}

#[verifier::spinoff_prover]
fn second_word_of(s: &str) -> (r: Option<String>)
    ensures
        text::opt(r) == second_word(s@),
{
    let v = text::chars_of(s);
    assert(v@.skip(0) =~= s@);
    let a = text::white_from(&v, 0);
    let ghost t = text::trim_start(s@);
    assert(v@.skip(a as int) == t);
    let b = a + visible_from(&v, a);
    let ghost rest = t.skip(b - a);
    assert(v@.skip(b as int) =~= rest);
    let c = b + text::white_from(&v, b);
    let ghost u = text::trim_start(rest);
    assert(v@.skip(c as int) =~= rest.skip(c - b));
    assert(v@.skip(c as int) == u);
    let d = c + visible_from(&v, c);
    if d == c {
        return None;
    }
    assert(v@.subrange(c as int, d as int) =~= u.take(d - c));
    Some(text::slice(&v, c, d))
}

/// A pair of a query: the name, and the value decoded. One without `=` has an empty
/// value.
pub open spec fn pair_of(pair: Seq<char>) -> (Seq<char>, Seq<char>) {
    match text::split_once(pair, '=') {
        Some((key, value)) => (key, text::lossy(unescaped(encode_utf8(value)))),
        None => (pair, text::lossy(unescaped(encode_utf8(""@)))),
    }
}

/// The first `n` pairs, a later one in place of an earlier one of the same name.
pub open spec fn pairs_upto(pairs: Seq<Seq<char>>, n: nat) -> Map<Seq<char>, Seq<char>>
    decreases n,
{
    if n == 0 {
        Map::empty()
    } else {
        let (key, value) = pair_of(pairs[n - 1]);
        pairs_upto(pairs, (n - 1) as nat).insert(key, value)
    }
}

/// The query of the request the browser was redirected to.
pub open spec fn query_in(request_line: Seq<char>) -> Map<Seq<char>, Seq<char>> {
    match second_word(request_line) {
        None => Map::empty(),
        Some(target) => match text::split_once(target, '?') {
            None => Map::empty(),
            Some((_, query)) => {
                let pairs = text::split(query, '&');
                pairs_upto(pairs, pairs.len())
            },
        },
    }
}

/// A query, by name.
pub struct Query {
    pairs: Table<String>,
}

impl View for Query {
    type V = Map<Seq<char>, Seq<char>>;

    closed spec fn view(&self) -> Map<Seq<char>, Seq<char>> {
        self.pairs@.map_values(|t: String| t@)
    }
}

impl Query {
    pub closed spec fn wf(&self) -> bool {
        self.pairs.wf()
    }

    pub fn get(&self, name: &str) -> (r: Option<&str>)
        requires
            self.wf(),
        ensures
            text::opt_str(r) == (if self@.contains_key(name@) {
                Some(self@[name@])
            } else {
                None
            }),
    {
        match self.pairs.get(name) {
            Some(t) => Some(t.as_str()),
            None => None,
        }
    }

    pub fn is_empty(&self) -> (r: bool)
        requires
            self.wf(),
        ensures
            r == (self@ == Map::<Seq<char>, Seq<char>>::empty()),
    {
        let r = self.pairs.len() == 0;
        proof {
            if r {
                assert(self@ =~= Map::<Seq<char>, Seq<char>>::empty());
            } else {
                self.pairs.lemma_row(0);
                let k = self.pairs.rows()[0].0@;
                assert(self@.contains_key(k));
                assert(!Map::<Seq<char>, Seq<char>>::empty().contains_key(k));
            }
        }
        r
    }

    fn put(&mut self, key: String, value: String)
        requires
            old(self).wf(),
        ensures
            final(self).wf(),
            final(self)@ == old(self)@.insert(key@, value@),
    {
        let ghost before = self@;
        self.pairs.insert(key, value);
        assert(self@ =~= before.insert(key@, value@));
    }
}

/// The query of the request the browser was redirected to, as pairs.
pub fn query_of(request_line: &str) -> (r: Query)
    ensures
        r.wf(),
        r@ == query_in(request_line@),
{
    let mut found = Query { pairs: Table::new() };
    assert(found@ =~= Map::<Seq<char>, Seq<char>>::empty());
    let target = match second_word_of(request_line) {
        Some(t) => t,
        None => return found,
    };
    let query = match text::split_first(&target, '?') {
        Some((_, q)) => q,
        None => return found,
    };
    let pairs = text::split_all(&query, '&');
    let ghost all = text::views(pairs@);
    let mut i: usize = 0;
    while i < pairs.len()
        invariant
            i <= pairs.len(),
            all == text::views(pairs@),
            found.wf(),
            found@ == pairs_upto(all, i as nat),
        decreases pairs.len() - i,
    {
        assert(all[i as int] == pairs@[i as int]@);
        match text::split_first(&pairs[i], '=') {
            Some((key, value)) => {
                let value = decode(&value);
                found.put(key, value);
            },
            None => {
                let value = decode("");
                found.put(pairs[i].clone(), value);
            },
        }
        i = i + 1;
    }
    found
}

/// The first line of a request, without its end.
pub open spec fn first_line(request: Seq<char>) -> Seq<char> {
    let n = text::position(request, '\n') as int;
    let line = request.take(n);
    if n < request.len() && n > 0 && line.last() == '\r' {
        line.drop_last()
    } else {
        line
    }
}

fn first_line_of(request: &str) -> (r: String)
    ensures
        r@ == first_line(request@),
{
    let v = text::chars_of(request);
    assert(v@.skip(0) == request@);
    let n = text::position_from(&v, 0, '\n');
    let ghost line = request@.take(n as int);
    if n < v.len() && n > 0 && v[n - 1] == '\r' {
        assert(v@.subrange(0, n - 1) == line.drop_last());
        text::slice(&v, 0, n - 1)
    } else {
        assert(v@.subrange(0, n as int) == line);
        text::slice(&v, 0, n)
    }
}

/// What the loopback listener does with a request.
pub enum Redirect {
    /// Not the redirect: a favicon, or someone poking the port. Keep waiting.
    Waiting,
    /// The sign-in is over, one way or the other.
    Finished(Result<String, Error>),
}

/// What the browser is left looking at: plain, and served by a socket that closes
/// right afterwards, so it can fetch nothing.
pub const DONE_PAGE: &'static str = "<!doctype html><meta charset=utf-8><title>Signed in</title><body style=\"font:15px system-ui;display:grid;place-items:center;height:90vh;margin:0\"><div style=\"text-align:center\"><h1 style=\"font-size:1.2rem\">Signed in to alkyon</h1><p>You can close this tab and go back to the workbench.</p></div>";

/// The page, with the headers that make it a complete answer.
pub open spec fn http_answer(body: Seq<char>) -> Seq<char> {
    "HTTP/1.1 200 OK\r\nContent-Type: text/html; charset=utf-8\r\nContent-Length: "@
        + text::decimal(encode_utf8(body).len() as usize as nat)
        + "\r\nConnection: close\r\n\r\n"@ + body
}

fn answer(body: &str) -> (r: String)
    ensures
        r@ == http_answer(body@),
{
    "HTTP/1.1 200 OK\r\nContent-Type: text/html; charset=utf-8\r\nContent-Length: ".to_owned(

    ).concat(&text::decimal_of(body.len() as u64)).concat(
        "\r\nConnection: close\r\n\r\n",
    ).concat(body)
}

/// What a redirect says, for the sign-in whose state was `expected`: its page, and how
/// it ends, if it does.
pub open spec fn redirect_says(query: Map<Seq<char>, Seq<char>>, expected: Seq<char>) -> (
    Seq<char>,
    Option<Result<Seq<char>, Seq<char>>>,
) {
    if query.contains_key("error"@) {
        let described = if query.contains_key("error_description"@) {
            query["error_description"@]
        } else {
            query["error"@]
        };
        (
            "<p>Sign-in failed. Go back to alkyon."@,
            Some(Err("sign-in refused: "@ + described)),
        )
    } else if !query.contains_key("code"@) {
        ("<p>Nothing here."@, None)
    } else if !query.contains_key("state"@) || query["state"@] != expected {
        (
            "<p>Sign-in failed. Go back to alkyon."@,
            Some(Err("the sign-in came back with the wrong state and was discarded"@)),
        )
    } else {
        (DONE_PAGE@, Some(Ok(query["code"@])))
    }
}

/// Answer one request to the loopback listener. The state is the only thing tying a
/// redirect to the sign-in that was begun, so one with another is discarded.
pub fn take_redirect(request: &str, expected_state: &str) -> (r: (String, Redirect))
    ensures
        ({
            let (page, ending) = redirect_says(query_in(first_line(request@)), expected_state@);
            &&& r.0@ == http_answer(page)
            &&& match r.1 {
                Redirect::Waiting => ending is None,
                Redirect::Finished(Ok(code)) => ending == Some(
                    Ok::<Seq<char>, Seq<char>>(code@),
                ),
                Redirect::Finished(Err(e)) => e matches Error::BadRequest(m) && ending == Some(
                    Err::<Seq<char>, Seq<char>>(m@),
                ),
            }
        }),
{
    let query = query_of(&first_line_of(request));
    if let Some(error) = query.get("error") {
        let described = match query.get("error_description") {
            Some(t) => t,
            None => error,
        };
        return (
            answer("<p>Sign-in failed. Go back to alkyon."),
            Redirect::Finished(
                Err(Error::BadRequest("sign-in refused: ".to_owned().concat(described))),
            ),
        );
    }
    let code = match query.get("code") {
        Some(c) => c,
        None => return (answer("<p>Nothing here."), Redirect::Waiting),
    };
    let known = match query.get("state") {
        Some(s) => text::same(s, expected_state),
        None => false,
    };
    if !known {
        return (
            answer("<p>Sign-in failed. Go back to alkyon."),
            Redirect::Finished(
                Err(
                    Error::BadRequest(
                        "the sign-in came back with the wrong state and was discarded".to_owned(),
                    ),
                ),
            ),
        );
    }
    (answer(DONE_PAGE), Redirect::Finished(Ok(code.to_owned())))
}

/// A redirect hands a code over only for the sign-in it belongs to.
pub proof fn law_a_code_needs_its_state(query: Map<Seq<char>, Seq<char>>, expected: Seq<char>)
    ensures
        redirect_says(query, expected).1 matches Some(Ok(code)) ==> query.contains_key("state"@)
            && query["state"@] == expected && query["code"@] == code && !query.contains_key(
            "error"@,
        ),
{
}

// ----------------------------------------------------------------- device code

/// What to show someone whose browser is somewhere else.
#[derive(Debug)]
pub struct DeviceCode {
    pub device_code: String,
    pub user_code: String,
    pub verification_uri: String,
    pub expires_in: u64,
    /// Seconds to wait between polls.
    pub interval: u64,
}

impl Clone for DeviceCode {
    fn clone(&self) -> (r: Self)
        ensures
            r == *self,
    {
        DeviceCode {
            device_code: self.device_code.clone(),
            user_code: self.user_code.clone(),
            verification_uri: self.verification_uri.clone(),
            expires_in: self.expires_in,
            interval: self.interval,
        }
    }
}

/// How long to wait between polls when Entra does not say.
pub fn five() -> (r: u64)
    ensures
        r == 5,
{
    5
}

/// The form that asks for a code to type in on another device.
pub fn device_form(credential: &Credential, resource: Resource) -> (r: Result<Form, Error>)
    ensures
        match r {
            Ok(form) => {
                &&& plain_id(credential.tenant@, "tenant"@) matches Ok(tenant)
                &&& plain_id(credential.client_id@, "application id"@) matches Ok(client)
                &&& form@ == (
                    endpoint_of(tenant, "devicecode"@),
                    seq![("client_id"@, client), ("scope"@, resource.offline_scope())],
                )
            },
            Err(e) => match plain_id(credential.tenant@, "tenant"@) {
                Err(why) => e@ == ErrorView::BadRequest(why),
                Ok(_) => plain_id(credential.client_id@, "application id"@) matches Err(why) && e@
                    == ErrorView::BadRequest(why),
            },
        },
{
    let valid = match credential.validated() {
        Ok(c) => c,
        Err(e) => return Err(e),
    };
    let form = Form::to(valid.endpoint("devicecode")).with("client_id", &valid.client_id).with(
        "scope",
        &resource.offline(),
    );
    assert(form@.1 =~= seq![
        ("client_id"@, valid.client_id@),
        ("scope"@, resource.offline_scope()),
    ]);
    Ok(form)
}

/// Why a device sign-in could not be begun: Entra's description, its code, or the
/// status alone.
pub fn device_refusal(error: Option<TokenError>, status: &str) -> (r: Error)
    ensures
        r@ == ErrorView::BadRequest(
            "Entra refused to start a device sign-in: "@ + (match error {
                Some(e) => match e.error_description {
                    Some(d) => d@,
                    None => e.error@,
                },
                None => "HTTP "@ + status@,
            }),
        ),
{
    let said = match error {
        Some(e) => match e.error_description {
            Some(d) => d,
            None => e.error,
        },
        None => "HTTP ".to_owned().concat(status),
    };
    Error::BadRequest("Entra refused to start a device sign-in: ".to_owned().concat(&said))
}

/// The form that asks whether the code has been typed in yet.
pub fn poll_form(credential: &Credential, code: &DeviceCode) -> (r: Form)
    ensures
        r@ == (
            endpoint_of(credential.tenant@, "token"@),
            seq![
                ("client_id"@, credential.client_id@),
                ("grant_type"@, "urn:ietf:params:oauth:grant-type:device_code"@),
                ("device_code"@, code.device_code@),
            ],
        ),
{
    let form = Form::to(credential.endpoint("token")).with(
        "client_id",
        &credential.client_id,
    ).with("grant_type", "urn:ietf:params:oauth:grant-type:device_code").with(
        "device_code",
        &code.device_code,
    );
    assert(form@.1 =~= seq![
        ("client_id"@, credential.client_id@),
        ("grant_type"@, "urn:ietf:params:oauth:grant-type:device_code"@),
        ("device_code"@, code.device_code@),
    ]);
    form
}

/// Whether there is still time to use a device code, shown at `started` and good for so
/// many seconds.
pub fn in_time(started: u128, expires_in: u64, now: u128) -> (r: Result<(), Error>)
    ensures
        match r {
            Ok(()) => now <= started + expires_in * SECOND,
            Err(e) => now > started + expires_in * SECOND && e@ == ErrorView::BadRequest(
                "the device code expired before it was used"@,
            ),
        },
{
    let lasts: u128 = expires_in as u128 * SECOND;
    if now > started && now - started > lasts {
        return Err(Error::BadRequest("the device code expired before it was used".to_owned()));
    }
    Ok(())
}

/// What comes of one poll.
pub enum Poll {
    /// The code was used.
    Done(Tokens),
    /// Not yet: ask again after this many seconds.
    Again(u64),
    /// It will not be.
    Failed(Error),
}

/// What is made of the answer to [`poll_form`]. `authorization_pending` is the
/// ordinary state, not a failure, and `slow_down` asks for five seconds more between
/// polls.
pub fn polled(outcome: Result<Tokens, String>, interval: u64) -> (r: Poll)
    requires
        interval <= u64::MAX - 5,
    ensures
        match outcome {
            Ok(tokens) => r == Poll::Done(tokens),
            Err(code) => if code@ == "authorization_pending"@ {
                r == Poll::Again(interval)
            } else if code@ == "slow_down"@ {
                r == Poll::Again((interval + 5) as u64)
            } else {
                r matches Poll::Failed(e) && e@ == ErrorView::BadRequest(
                    if code@ == "authorization_declined"@ {
                        "the sign-in was declined"@
                    } else if code@ == "expired_token"@ {
                        "the device code expired before it was used"@
                    } else {
                        "device sign-in failed: "@ + code@
                    },
                )
            },
        },
{
    match outcome {
        Ok(tokens) => Poll::Done(tokens),
        Err(code) => if text::same(&code, "authorization_pending") {
            Poll::Again(interval)
        } else if text::same(&code, "slow_down") {
            Poll::Again(interval + 5)
        } else if text::same(&code, "authorization_declined") {
            Poll::Failed(Error::BadRequest("the sign-in was declined".to_owned()))
        } else if text::same(&code, "expired_token") {
            Poll::Failed(Error::BadRequest("the device code expired before it was used".to_owned()))
        } else {
            Poll::Failed(
                Error::BadRequest("device sign-in failed: ".to_owned().concat(&code)),
            )
        },
    }
}

/// What a token is asked for, for each kind of resource.
pub proof fn law_a_resource_has_its_own_scope(resource: Resource)
    ensures
        resource is AzureSql ==> resource.scope_text() == "https://database.windows.net/.default"@,
        resource is Storage ==> resource.scope_text() == "https://storage.azure.com/.default"@,
        resource.offline_scope() == resource.scope_text() + " offline_access"@,
{
}

/// A tenant or an application is taken as it was given, without the white space around it,
/// and refused only where it is empty, has a character no such name has, or is all dots.
pub proof fn law_an_id_is_taken_as_it_was_given(value: Seq<char>, what: Seq<char>)
    ensures
        plain_id(value, what) matches Ok(t) ==> t == text::trim(value),
        plain_id(value, what) is Ok <==> text::trim(value).len() > 0 && all_id_chars(
            text::trim(value),
        ) && !only_dots(text::trim(value)),
        endpoint_of(value, what) == "https://login.microsoftonline.com/"@ + value
            + "/oauth2/v2.0/"@ + what,
{
}

/// An account is named by the first of the claims that can name one.
pub proof fn law_an_account_is_named_by_the_first_claim(
    claims: Map<Seq<char>, Option<Seq<char>>>,
    name: Seq<char>,
)
    ensures
        string_claim(claims, "upn"@) == Some(name) ==> account_in(claims) == name,
        string_claim(claims, "upn"@) is None ==> {
            &&& string_claim(claims, "preferred_username"@) == Some(name) ==> account_in(claims)
                == name
            &&& string_claim(claims, "preferred_username"@) is None ==> {
                &&& string_claim(claims, "unique_name"@) == Some(name) ==> account_in(claims)
                    == name
                &&& string_claim(claims, "unique_name"@) is None ==> {
                    &&& string_claim(claims, "email"@) == Some(name) ==> account_in(claims) == name
                    &&& string_claim(claims, "email"@) is None ==> {
                        &&& string_claim(claims, "appid"@) == Some(name) ==> account_in(claims)
                            == name
                        &&& string_claim(claims, "appid"@) is None ==> account_in(claims)
                            == Seq::<char>::empty()
                    }
                }
            }
        },
        claims.contains_key(name) ==> string_claim(claims, name) == claims[name],
        !claims.contains_key(name) ==> string_claim(claims, name) is None,
{
}

/// Tokens are kept as they were issued, and last as long as was said, or an hour where
/// nothing was; they are used until shortly before that.
pub proof fn law_tokens_last_as_long_as_was_said(
    access_token: Seq<char>,
    refresh_token: Option<Seq<char>>,
    seconds: u64,
    now: u128,
    later: u128,
)
    requires
        now + seconds * SECOND <= u128::MAX,
        now + 3600 * SECOND <= u128::MAX,
    ensures
        ({
            let t = tokens_of(access_token, refresh_token, Some(seconds), now);
            &&& t.access_token == access_token
            &&& t.refresh_token == refresh_token
            &&& t.expires_at == now + seconds * SECOND
            &&& t.fresh(later) <==> later + EXPIRY_MARGIN < now + seconds * SECOND
        }),
        tokens_of(access_token, refresh_token, None, now) == tokens_of(
            access_token,
            refresh_token,
            Some(3600),
            now,
        ),
{
}

/// What comes back from a sign-in is taken for what it is: an error is one, a code with the
/// state that was sent is the code, and what is neither is not an answer yet.
pub proof fn law_a_redirect_is_taken_for_what_it_is(
    query: Map<Seq<char>, Seq<char>>,
    expected: Seq<char>,
)
    ensures
        query.contains_key("error"@) ==> redirect_says(query, expected).1 == Some(
            Err::<Seq<char>, Seq<char>>(
                "sign-in refused: "@ + (if query.contains_key("error_description"@) {
                    query["error_description"@]
                } else {
                    query["error"@]
                }),
            ),
        ),
        !query.contains_key("error"@) && !query.contains_key("code"@) ==> redirect_says(
            query,
            expected,
        ).1 is None,
        !query.contains_key("error"@) && query.contains_key("code"@) && query.contains_key(
            "state"@,
        ) && query["state"@] == expected ==> redirect_says(query, expected).1 == Some(
            Ok::<Seq<char>, Seq<char>>(query["code"@]),
        ),
        !query.contains_key("error"@) && query.contains_key("code"@) && !(query.contains_key(
            "state"@,
        ) && query["state"@] == expected) ==> (redirect_says(query, expected).1 matches Some(
            answer,
        ) && answer is Err),
{
}

/// A value that was encoded into a query is read back from it under its name, and the last
/// of two of the same name counts.
pub proof fn law_a_query_is_read_back(
    name: Seq<char>,
    value: Seq<char>,
    pairs: Seq<Seq<char>>,
    n: nat,
)
    requires
        !name.contains('='),
        n < pairs.len(),
        pairs[n as int] == name + seq!['='] + escaped(value),
    ensures
        pair_of(name + seq!['='] + escaped(value)) == (name, value),
        pairs_upto(pairs, n + 1).contains_key(name),
        pairs_upto(pairs, n + 1)[name] == value,
        forall|other: Seq<char>|
            other != name ==> pairs_upto(pairs, n + 1).contains_key(other) == (#[trigger] pairs_upto(
                pairs,
                n,
            ).contains_key(other)) && pairs_upto(pairs, n + 1)[other] == pairs_upto(pairs, n)[other],
{
    law_decoding_undoes_encoding(value);
    let pair = name + seq!['='] + escaped(value);
    let f = text::other_than('=');
    assert forall|i: int| 0 <= i < name.len() implies f(#[trigger] pair[i]) by {
        assert(pair[i] == name[i]);
        assert(name.contains(name[i]));
    }
    text::lemma_run_is(pair, f, name.len() as int);
    assert(pair.take(name.len() as int) == name);
    assert(pair.skip(name.len() as int + 1) == escaped(value));
}

/// The first line of a request is what stands before the first line's end.
pub proof fn law_a_request_begins_with_its_line(line: Seq<char>, rest: Seq<char>)
    requires
        !line.contains('\n'),
        line.len() == 0 || line.last() != '\r',
    ensures
        first_line(line + seq!['\r', '\n'] + rest) == line,
        first_line(line + seq!['\n'] + rest) == line,
{
    let f = text::other_than('\n');
    let a = line + seq!['\r', '\n'] + rest;
    assert forall|i: int| 0 <= i < line.len() + 1 implies f(#[trigger] a[i]) by {
        if i < line.len() {
            assert(a[i] == line[i]);
            assert(line.contains(line[i]));
        }
    }
    text::lemma_run_is(a, f, line.len() as int + 1);
    assert(a.take(line.len() as int + 1).drop_last() == line);
    let b = line + seq!['\n'] + rest;
    assert forall|i: int| 0 <= i < line.len() implies f(#[trigger] b[i]) by {
        assert(b[i] == line[i]);
        assert(line.contains(line[i]));
    }
    text::lemma_run_is(b, f, line.len() as int);
    assert(b.take(line.len() as int) == line);
}

/// The address a person signs in at says who is asking, for what, and where to come back to.
pub proof fn law_a_sign_in_asks_for_what_it_needs(
    tenant: Seq<char>,
    client_id: Seq<char>,
    redirect: Seq<char>,
    scope: Seq<char>,
    state: Seq<char>,
    challenge: Seq<char>,
)
    ensures
        authorize_address(tenant, client_id, redirect, scope, state, challenge)
            == "https://login.microsoftonline.com/"@ + tenant + "/oauth2/v2.0/"@ + "authorize"@
            + "?client_id="@ + escaped(client_id) + "&response_type=code&redirect_uri="@ + escaped(
            redirect,
        ) + "&response_mode=query&scope="@ + escaped(scope) + "&state="@ + state
            + "&code_challenge="@ + challenge
            + "&code_challenge_method=S256&prompt=select_account"@,
{
}

/// A code is exchanged with the one verifier it was asked for with, at the tenant's own
/// endpoint.
pub proof fn law_a_code_is_exchanged_with_its_verifier(
    credential: &Credential,
    resource: Resource,
    code: &str,
    redirect: &str,
    verifier: &str,
    r: Form,
)
    requires
        call_ensures(code_form, (credential, resource, code, redirect, verifier), r),
    ensures
        r@.0 == endpoint_of(credential.tenant@, "token"@),
        r@.1.len() == 6,
        r@.1.contains(("client_id"@, credential.client_id@)),
        r@.1.contains(("grant_type"@, "authorization_code"@)),
        r@.1.contains(("code"@, code@)),
        r@.1.contains(("redirect_uri"@, redirect@)),
        r@.1.contains(("code_verifier"@, verifier@)),
        r@.1.contains(("scope"@, resource.offline_scope())),
{
    let f = r@.1;
    assert(f[0] == ("client_id"@, credential.client_id@));
    assert(f[1] == ("grant_type"@, "authorization_code"@));
    assert(f[2] == ("code"@, code@));
    assert(f[3] == ("redirect_uri"@, redirect@));
    assert(f[4] == ("code_verifier"@, verifier@));
    assert(f[5] == ("scope"@, resource.offline_scope()));
}

/// A token is renewed with the refresh token that was given, for the same application, at
/// the tenant's own endpoint.
pub proof fn law_a_token_is_renewed_with_its_own(
    credential: &Credential,
    resource: Resource,
    token: &str,
    r: Result<Form, Error>,
)
    requires
        call_ensures(refresh_form, (credential, resource, token), r),
    ensures
        r is Ok <==> plain_id(credential.tenant@, "tenant"@) is Ok && plain_id(
            credential.client_id@,
            "application id"@,
        ) is Ok,
        r matches Ok(form) ==> {
            &&& form@.0 == endpoint_of(text::trim(credential.tenant@), "token"@)
            &&& form@.1.len() == 4
            &&& form@.1[0] == ("client_id"@, text::trim(credential.client_id@))
            &&& form@.1[1] == ("grant_type"@, "refresh_token"@)
            &&& form@.1[2] == ("refresh_token"@, token@)
            &&& form@.1[3] == ("scope"@, resource.offline_scope())
        },
{
}

/// A device is asked after with the code it was given.
pub proof fn law_a_device_is_asked_after_with_its_code(
    credential: &Credential,
    code: &DeviceCode,
    r: Form,
)
    requires
        call_ensures(poll_form, (credential, code), r),
    ensures
        r@.0 == endpoint_of(credential.tenant@, "token"@),
        r@.1.contains(("client_id"@, credential.client_id@)),
        r@.1.contains(("grant_type"@, "urn:ietf:params:oauth:grant-type:device_code"@)),
        r@.1.contains(("device_code"@, code.device_code@)),
{
    let f = r@.1;
    assert(f[0] == ("client_id"@, credential.client_id@));
    assert(f[1] == ("grant_type"@, "urn:ietf:params:oauth:grant-type:device_code"@));
    assert(f[2] == ("device_code"@, code.device_code@));
}

/// Tokens that were granted are passed on as they are.
pub proof fn law_granted_tokens_are_passed_on(
    outcome: Result<Tokens, String>,
    r: Result<Tokens, Error>,
)
    requires
        call_ensures(refreshed, (outcome,), r),
    ensures
        r is Ok <==> outcome is Ok,
        outcome matches Ok(tokens) ==> r == Ok::<Tokens, Error>(tokens),
{
}

} // verus!
