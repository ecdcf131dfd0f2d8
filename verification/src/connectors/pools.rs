//! Which open pool may answer for a source.

use crate::model::{AuthConfig, AuthConfigView, SourceConfig, SourceConfigView, TlsMode};
use crate::text;
use std::collections::hash_map::DefaultHasher;
use std::hash::{Hash, Hasher};
use vstd::prelude::*;
use vstd::string::*;

verus! {

pub open spec fn tls_word(tls: TlsMode) -> Seq<char> {
    match tls {
        TlsMode::Disable => "disable"@,
        TlsMode::Prefer => "prefer"@,
        TlsMode::Require => "require"@,
        TlsMode::TrustCertificate => "trust_certificate"@,
    }
}

fn tls_word_of(tls: TlsMode) -> (r: &'static str)
    ensures
        r@ == tls_word(tls),
{
    match tls {
        TlsMode::Disable => "disable",
        TlsMode::Prefer => "prefer",
        TlsMode::Require => "require",
        TlsMode::TrustCertificate => "trust_certificate",
    }
}

/// Where a connection goes and how it is encrypted.
pub open spec fn endpoint(config: SourceConfigView, db: Seq<char>) -> Seq<Seq<char>> {
    seq![
        config.host,
        text::decimal(config.port_used() as nat),
        db,
        tls_word(config.tls),
    ]
}

/// Who connects, credential included.
pub open spec fn login(auth: AuthConfigView) -> Seq<Seq<char>> {
    match auth {
        AuthConfigView::Password { username, password } => seq![
            "password"@,
            username,
            password,
        ],
        AuthConfigView::AadToken { token } => seq!["aad"@, token],
        AuthConfigView::Entra { tenant, client_id, refresh_token, .. } => seq![
            "entra"@,
            tenant,
            client_id,
        ] + (match refresh_token {
            Some(token) => seq![token],
            None => Seq::empty(),
        }),
        AuthConfigView::Integrated => seq!["integrated"@],
        AuthConfigView::NoAuth => seq!["none"@],
    }
}

/// Who connects, where a password is the only credential there is.
pub open spec fn password_login(auth: AuthConfigView) -> Seq<Seq<char>> {
    match auth {
        AuthConfigView::Password { username, password } => seq![
            "password"@,
            username,
            password,
        ],
        _ => seq![auth.method()],
    }
}

/// Everything about a connection that, if changed, must not reuse a pool: endpoint,
/// encryption and identity.
pub open spec fn identity(config: SourceConfigView, db: Seq<char>) -> Seq<Seq<char>> {
    endpoint(config, db) + login(config.auth)
}

/// [`identity`], where a password is the only credential there is.
pub open spec fn password_identity(config: SourceConfigView, db: Seq<char>) -> Seq<Seq<char>> {
    endpoint(config, db) + password_login(config.auth)
}

fn endpoint_of(config: &SourceConfig, db: &str) -> (r: Vec<String>)
    ensures
        text::views(r@) == endpoint(config@, db@),
{
    let mut parts: Vec<String> = Vec::new();
    parts.push(config.host.clone());
    parts.push(text::decimal_of(config.port() as u64));
    parts.push(db.to_owned());
    parts.push(tls_word_of(config.tls).to_owned());
    assert(text::views(parts@) =~= endpoint(config@, db@));
    parts
}

pub fn identity_of(config: &SourceConfig, db: &str) -> (r: Vec<String>)
    ensures
        text::views(r@) == identity(config@, db@),
{
    let mut parts = endpoint_of(config, db);
    match &config.auth {
        AuthConfig::Password { username, password } => {
            parts.push("password".to_owned());
            parts.push(username.clone());
            parts.push(password.clone());
        },
        AuthConfig::AadToken { token } => {
            parts.push("aad".to_owned());
            parts.push(token.clone());
        },
        AuthConfig::Entra { tenant, client_id, refresh_token, .. } => {
            parts.push("entra".to_owned());
            parts.push(tenant.clone());
            parts.push(client_id.clone());
            if let Some(token) = refresh_token {
                parts.push(token.clone());
            }
        },
        AuthConfig::Integrated => {
            parts.push("integrated".to_owned());
        },
        AuthConfig::NoAuth => {
            parts.push("none".to_owned());
        },
    }
    assert(text::views(parts@) =~= identity(config@, db@));
    parts
}

pub fn password_identity_of(config: &SourceConfig, db: &str) -> (r: Vec<String>)
    ensures
        text::views(r@) == password_identity(config@, db@),
{
    let mut parts = endpoint_of(config, db);
    match &config.auth {
        AuthConfig::Password { username, password } => {
            parts.push("password".to_owned());
            parts.push(username.clone());
            parts.push(password.clone());
        },
        _ => {
            parts.push(config.auth.method().to_owned());
        },
    }
    assert(text::views(parts@) =~= password_identity(config@, db@));
    parts
}

/// The hash of those texts.
pub uninterp spec fn hashed(parts: Seq<Seq<char>>) -> u64;

/// `std::collections::hash_map::DefaultHasher`, made by `new`: every hasher made that
/// way is the same, so the hash is a function of what is fed to it. Which function is
/// not said.
#[verifier::external_body]
pub(crate) fn hash_of(parts: &Vec<String>) -> (r: u64)
    ensures
        r == hashed(text::views(parts@)),
{
    let mut hasher = DefaultHasher::new();
    parts.hash(&mut hasher);
    hasher.finish()
}

/// What to do about a pool.
#[derive(Debug, Clone, Copy, PartialEq, Eq, Structural)]
pub enum Choice {
    /// The open one answers for this login.
    Reuse,
    /// The open one was built by another login or for another endpoint: drop it and
    /// build one.
    Replace,
    /// There is none: build one.
    Build,
}

/// What to do, given the fingerprint of the pool that is open, if one is. A wrong
/// password must never be answered by a pool a right one built.
pub fn choose_pool(open: Option<u64>, wanted: u64) -> (r: Choice)
    ensures
        r == (match open {
            Some(fingerprint) => if fingerprint == wanted {
                Choice::Reuse
            } else {
                Choice::Replace
            },
            None => Choice::Build,
        }),
{
    match open {
        Some(fingerprint) => if fingerprint == wanted {
            Choice::Reuse
        } else {
            Choice::Replace
        },
        None => Choice::Build,
    }
}

proof fn lemma_endpoint(
    a: SourceConfigView,
    x: Seq<char>,
    b: SourceConfigView,
    y: Seq<char>,
)
    requires
        endpoint(a, x) == endpoint(b, y),
    ensures
        a.host == b.host,
        a.port_used() == b.port_used(),
        x == y,
        a.tls == b.tls,
{
    let p = endpoint(a, x);
    let q = endpoint(b, y);
    assert(p[0] == q[0] && p[1] == q[1] && p[2] == q[2] && p[3] == q[3]);
    text::lemma_decimal(a.port_used() as nat);
    text::lemma_decimal(b.port_used() as nat);
    reveal_strlit("disable");
    reveal_strlit("prefer");
    reveal_strlit("require");
    reveal_strlit("trust_certificate");
    assert(tls_word(a.tls).len() == tls_word(b.tls).len());
    assert("require"@[0] == 'r' && "disable"@[0] == 'd');
}

proof fn lemma_logins(a: AuthConfigView, b: AuthConfigView)
    requires
        login(a) == login(b),
    ensures
        match (a, b) {
            (
                AuthConfigView::Password { username: u, password: p },
                AuthConfigView::Password { username: v, password: q },
            ) => u == v && p == q,
            (AuthConfigView::AadToken { token: t }, AuthConfigView::AadToken { token: s }) => t
                == s,
            (
                AuthConfigView::Entra { tenant: t, client_id: c, refresh_token: r, .. },
                AuthConfigView::Entra { tenant: s, client_id: d, refresh_token: q, .. },
            ) => t == s && c == d && r == q,
            (AuthConfigView::Integrated, AuthConfigView::Integrated) => true,
            (AuthConfigView::NoAuth, AuthConfigView::NoAuth) => true,
            _ => false,
        },
{
    let p = login(a);
    let q = login(b);
    assert(p[0] == q[0]);
    assert(p.len() == q.len());
    reveal_strlit("password");
    reveal_strlit("aad");
    reveal_strlit("entra");
    reveal_strlit("integrated");
    reveal_strlit("none");
    assert(p[0].len() == q[0].len());
    match a {
        AuthConfigView::Password { .. } => {
            assert(p[1] == q[1] && p[2] == q[2]);
        },
        AuthConfigView::AadToken { .. } => {
            assert(p[1] == q[1]);
        },
        AuthConfigView::Entra { .. } => {
            assert(p[1] == q[1] && p[2] == q[2]);
            if p.len() > 3 {
                assert(p[3] == q[3]);
            }
        },
        _ => {},
    }
}

/// Two connections with the same identity go to the same place, encrypted the same way,
/// as the same login with the same credential.
pub proof fn law_an_identity_is_one_login_at_one_place(
    a: SourceConfigView,
    x: Seq<char>,
    b: SourceConfigView,
    y: Seq<char>,
)
    requires
        identity(a, x) == identity(b, y),
    ensures
        a.host == b.host,
        a.port_used() == b.port_used(),
        x == y,
        a.tls == b.tls,
        login(a.auth) == login(b.auth),
        a.auth matches AuthConfigView::Password { username, password } ==> (b.auth
            matches AuthConfigView::Password { username: u, password: p } && u == username && p
            == password),
        a.auth matches AuthConfigView::AadToken { token } ==> (b.auth
            matches AuthConfigView::AadToken { token: t } && t == token),
        a.auth matches AuthConfigView::Entra { tenant, client_id, refresh_token, .. } ==> (b.auth
            matches AuthConfigView::Entra { tenant: t, client_id: c, refresh_token: r, .. } && t
            == tenant && c == client_id && r == refresh_token),
        a.auth.method() == b.auth.method(),
{
    let p = identity(a, x);
    let q = identity(b, y);
    assert(p.take(4) =~= endpoint(a, x));
    assert(q.take(4) =~= endpoint(b, y));
    assert(p.skip(4) =~= login(a.auth));
    assert(q.skip(4) =~= login(b.auth));
    lemma_endpoint(a, x, b, y);
    lemma_logins(a.auth, b.auth);
}

/// Where a password is the only credential, the same holds of it.
pub proof fn law_a_password_identity_is_one_login_at_one_place(
    a: SourceConfigView,
    x: Seq<char>,
    b: SourceConfigView,
    y: Seq<char>,
)
    requires
        password_identity(a, x) == password_identity(b, y),
    ensures
        a.host == b.host,
        a.port_used() == b.port_used(),
        x == y,
        a.tls == b.tls,
        a.auth matches AuthConfigView::Password { username, password } ==> (b.auth
            matches AuthConfigView::Password { username: u, password: p } && u == username && p
            == password),
{
    let p = password_identity(a, x);
    let q = password_identity(b, y);
    assert(p.take(4) =~= endpoint(a, x));
    assert(q.take(4) =~= endpoint(b, y));
    assert(p.skip(4) =~= password_login(a.auth));
    assert(q.skip(4) =~= password_login(b.auth));
    lemma_endpoint(a, x, b, y);
    if a.auth is Password {
        assert(p.skip(4).len() == 3);
        assert(q.skip(4).len() == 3);
        assert(p.skip(4)[1] == q.skip(4)[1] && p.skip(4)[2] == q.skip(4)[2]);
    }
}

/// A pool is used again exactly where it was opened for the same login at the same place.
pub proof fn law_a_pool_serves_one_fingerprint(open: Option<u64>, wanted: u64, r: Choice)
    requires
        call_ensures(choose_pool, (open, wanted), r),
    ensures
        r is Reuse <==> open == Some(wanted),
        r is Build <==> open is None,
{
}

} // verus!
