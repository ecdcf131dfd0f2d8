use alkyon::azure::entra::{
    account_of, authorize_url, browser_command, code_form, decode, describe_token, device_form, device_refusal,
    encode, five, granted_once, in_time, interactive_start, pkce, poll_form, polled, query_of,
    refresh_form, refreshed, refusal, take_redirect, tokens_from, Credential, DeviceCode, Poll,
    Redirect, Resource, TokenError, TokenResponse, Tokens, EXPIRY_MARGIN, SECOND,
};
use alkyon::azure::storage::{
    add_page, encode_path, encode_query, explain, file_url, finish_listing, list_url, locate,
    Entry, Location, PathEntry,
};
use alkyon::azure::{Progress, SignIn, SignIns, Status};
use alkyon::error::Error;
use base64::engine::general_purpose::URL_SAFE_NO_PAD;
use base64::Engine as _;
use sha2::{Digest, Sha256};

fn with_tenant(tenant: &str) -> Credential {
    Credential {
        tenant: tenant.to_owned(),
        ..Credential::default()
    }
}

fn tokens(refresh: Option<&str>, expires_at: u128) -> Tokens {
    Tokens {
        access_token: "access".to_owned(),
        refresh_token: refresh.map(str::to_owned),
        expires_at,
        account: "ada@contoso.com".to_owned(),
    }
}

#[test]
fn a_tenant_that_could_change_the_endpoint_is_refused() {
    let bad = |tenant: &str| with_tenant(tenant).validated().is_err();
    assert!(bad("contoso.com/../../evil.example"));
    assert!(bad("common?x=1"));
    assert!(bad("tenant with spaces"));
    assert!(bad(""));
    assert!(bad("."));
    assert!(bad(".."));
    assert!(matches!(
        with_tenant(" .. ").validated(),
        Err(Error::BadRequest(_))
    ));

    let good = |tenant: &str| with_tenant(tenant).validated().is_ok();
    assert!(good("organizations"));
    assert!(good("contoso.onmicrosoft.com"));
    assert!(good("72f988bf-86f1-41af-91ab-2d7cd011db47"));
}

#[test]
fn the_endpoint_is_the_tenants_own() {
    let credential = with_tenant("contoso.com");
    assert_eq!(
        credential.endpoint("token"),
        "https://login.microsoftonline.com/contoso.com/oauth2/v2.0/token"
    );
}

#[test]
fn pkce_is_the_sha256_of_the_verifier() {
    let (verifier, challenge) = pkce();
    assert!((43..=128).contains(&verifier.len()), "{}", verifier.len());
    assert_eq!(
        challenge,
        URL_SAFE_NO_PAD.encode(Sha256::digest(verifier.as_bytes()))
    );
    assert!(!challenge.contains('='));
    assert!(challenge
        .chars()
        .all(|c| c.is_ascii_alphanumeric() || c == '-' || c == '_'));

    let (second, _) = pkce();
    assert_ne!(verifier, second);
}

#[test]
fn the_redirect_is_read_the_way_a_browser_sends_it() {
    let query = query_of("GET /?code=abc%2F123&state=xyz&session_state=9 HTTP/1.1");
    assert_eq!(query.get("code").unwrap(), "abc/123");
    assert_eq!(query.get("state").unwrap(), "xyz");

    assert!(query_of("GET /favicon.ico HTTP/1.1").is_empty());
    assert!(query_of("").is_empty());
}

#[test]
fn the_authorization_url_carries_every_required_parameter() {
    let url = authorize_url(
        &Credential::default(),
        "http://localhost:51234",
        "https://database.windows.net/.default offline_access",
        "st4te",
        "ch4llenge",
    );

    for required in [
        "client_id=04b07795-8ddb-461a-bbee-02f9e1bf7b46",
        "response_type=code",
        "redirect_uri=http%3A%2F%2Flocalhost%3A51234",
        "scope=https%3A%2F%2Fdatabase.windows.net%2F.default%20offline_access",
        "state=st4te",
        "code_challenge=ch4llenge",
        "code_challenge_method=S256",
    ] {
        assert!(url.contains(required), "`{required}` is missing from {url}");
    }
    assert_eq!(url.matches('?').count(), 1, "{url}");
    assert!(!url.contains(' '), "an unencoded space truncates the URL: {url}");
}

#[test]
fn nothing_in_an_encoded_value_can_break_out_of_the_quoting() {
    assert_eq!(encode("a\"b&c d"), "a%22b%26c%20d");
    let (verifier, challenge) = pkce();
    for ours in [
        verifier,
        challenge,
        uuid::Uuid::new_v4().simple().to_string(),
    ] {
        assert!(
            !ours.contains('"') && !ours.contains('&'),
            "`{ours}` would need encoding too"
        );
    }
}

#[test]
fn a_scope_survives_being_put_in_a_url() {
    assert_eq!(
        encode("https://database.windows.net/.default offline_access"),
        "https%3A%2F%2Fdatabase.windows.net%2F.default%20offline_access"
    );
}

#[test]
fn the_account_comes_out_of_the_tokens_claims() {
    let payload = URL_SAFE_NO_PAD.encode(br#"{"upn":"ada@contoso.com"}"#);
    assert_eq!(account_of(&format!("x.{payload}.y")), "ada@contoso.com");

    assert_eq!(account_of("opaque"), "");
    assert_eq!(account_of("x.!!!.y"), "");
}

#[test]
fn a_token_about_to_expire_is_not_fresh() {
    let now: u128 = 1_700_000_000 * SECOND;
    let make = |seconds: u128| tokens(None, now + seconds * SECOND);
    assert!(make(3600).fresh(now));
    assert!(!make(60).fresh(now));
}

#[test]
fn the_margin_itself_is_not_fresh() {
    let now: u128 = 5 * SECOND;
    assert!(!tokens(None, now + EXPIRY_MARGIN).fresh(now));
    assert!(tokens(None, now + EXPIRY_MARGIN + 1).fresh(now));
    assert!(!tokens(None, 0).fresh(now));
}

#[test]
fn decoding_gives_back_what_was_encoded() {
    for value in ["", "a b", "a+b/c?d=e&f", "häßlich 🦆", "100%"] {
        assert_eq!(decode(&encode(value)), value);
    }
}

#[test]
fn a_plus_is_a_space_and_half_an_escape_is_itself() {
    assert_eq!(decode("a+b"), "a b");
    assert_eq!(decode("50%"), "50%");
    assert_eq!(decode("%zz"), "%zz");
}

#[test]
fn a_token_is_described_by_what_it_claims() {
    let payload = URL_SAFE_NO_PAD.encode(
        br#"{"aud":"https://storage.azure.com","tid":"t","upn":"ada@contoso.com","scp":"user"}"#,
    );
    let said = describe_token(&format!("h.{payload}.s"));
    assert!(said.contains("https://storage.azure.com"), "{said}");
    assert!(!said.contains(&payload), "{said}");
}

#[test]
fn a_response_is_good_for_as_long_as_it_says() {
    let response = |seconds: Option<u64>| TokenResponse {
        access_token: "opaque".to_owned(),
        refresh_token: Some("r".to_owned()),
        expires_in: seconds,
    };
    let now: u128 = 1_000 * SECOND;
    let minted = tokens_from(response(Some(600)), now);
    assert_eq!(minted.expires_at, now + 600 * SECOND);
    assert_eq!(minted.refresh_token.as_deref(), Some("r"));
    assert_eq!(minted.account, "");
    assert_eq!(tokens_from(response(None), now).expires_at, now + 3600 * SECOND);
}

#[test]
fn refreshing_sends_the_refresh_token_and_asks_for_another() {
    let form = refresh_form(&with_tenant("contoso.com"), Resource::Storage, "r3fresh").unwrap();
    assert_eq!(
        form.url,
        "https://login.microsoftonline.com/contoso.com/oauth2/v2.0/token"
    );
    assert!(form
        .fields
        .contains(&("refresh_token".to_owned(), "r3fresh".to_owned())));
    assert!(form.fields.contains(&(
        "scope".to_owned(),
        "https://storage.azure.com/.default offline_access".to_owned()
    )));
    assert!(refresh_form(&with_tenant("a/b"), Resource::Storage, "r").is_err());
}

#[test]
fn a_refused_grant_says_to_sign_in_again() {
    assert!(refreshed(Ok(tokens(None, 0))).is_ok());
    let gone = refreshed(Err("invalid_grant".to_owned())).err().unwrap();
    let other = refreshed(Err("server_error".to_owned())).err().unwrap();
    assert!(gone.message().contains("sign in again"), "{}", gone.message());
    assert!(other.message().contains("server_error"), "{}", other.message());
    assert_ne!(gone.message(), other.message());
}

#[test]
fn an_error_is_its_code_and_an_unreadable_one_its_status() {
    let error = TokenError {
        error: "invalid_client".to_owned(),
        error_description: Some("AADSTS7000215: a paragraph".to_owned()),
    };
    assert_eq!(refusal(Some(error), "400 Bad Request").unwrap(), "invalid_client");
    let unread = refusal(None, "502 Bad Gateway").err().unwrap();
    assert_eq!(
        unread.message(),
        "Entra refused the sign-in (502 Bad Gateway)"
    );
    let once = granted_once(Err("invalid_client".to_owned()), "signing in").err().unwrap();
    assert_eq!(once.message(), "signing in: Entra said invalid_client");
}

#[test]
fn a_sign_in_takes_its_code_back_to_where_it_began() {
    let credential = with_tenant("contoso.com");
    let start = interactive_start(&credential, Resource::AzureSql, 51234);
    assert_eq!(start.redirect, "http://localhost:51234");
    assert!(start.url.contains(&format!("state={}", start.state)));
    let form = code_form(
        &credential,
        Resource::AzureSql,
        "c0de",
        &start.redirect,
        &start.verifier,
    );
    assert!(form.fields.contains(&("code".to_owned(), "c0de".to_owned())));
    assert!(form
        .fields
        .contains(&("code_verifier".to_owned(), start.verifier.clone())));
}

#[test]
fn a_code_is_only_taken_with_its_own_state() {
    let (_, taken) = take_redirect("GET /?code=abc&state=mine HTTP/1.1\r\n", "mine");
    assert!(matches!(taken, Redirect::Finished(Ok(code)) if code == "abc"));

    let (_, wrong) = take_redirect("GET /?code=abc&state=other HTTP/1.1\r\n", "mine");
    match wrong {
        Redirect::Finished(Err(e)) => assert_eq!(
            e.message(),
            "the sign-in came back with the wrong state and was discarded"
        ),
        _ => panic!("a code with another state was taken"),
    }

    let (page, waiting) = take_redirect("GET /favicon.ico HTTP/1.1\r\n", "mine");
    assert!(matches!(waiting, Redirect::Waiting));
    assert!(page.ends_with("<p>Nothing here."), "{page}");
    assert!(page.contains("Content-Length: 16\r\n"), "{page}");

    let (_, refused) = take_redirect(
        "GET /?error=access_denied&error_description=No+thanks HTTP/1.1\r\n",
        "mine",
    );
    match refused {
        Redirect::Finished(Err(e)) => assert_eq!(e.message(), "sign-in refused: No thanks"),
        _ => panic!("a refusal was not read as one"),
    }
}

#[test]
fn a_device_code_is_asked_for_polled_and_runs_out() {
    let credential = with_tenant("contoso.com");
    let form = device_form(&credential, Resource::AzureSql).unwrap();
    assert_eq!(
        form.url,
        "https://login.microsoftonline.com/contoso.com/oauth2/v2.0/devicecode"
    );
    let code = DeviceCode {
        device_code: "dev".to_owned(),
        user_code: "ABCD".to_owned(),
        verification_uri: "https://microsoft.com/devicelogin".to_owned(),
        expires_in: 900,
        interval: five(),
    };
    let poll = poll_form(&credential, &code);
    assert!(poll
        .fields
        .contains(&("device_code".to_owned(), "dev".to_owned())));

    assert!(matches!(
        polled(Err("authorization_pending".to_owned()), 5),
        Poll::Again(5)
    ));
    assert!(matches!(polled(Err("slow_down".to_owned()), 5), Poll::Again(10)));
    assert!(matches!(polled(Ok(tokens(None, 0)), 5), Poll::Done(_)));
    for (said, expected) in [
        ("authorization_declined", "the sign-in was declined"),
        ("expired_token", "the device code expired before it was used"),
        ("bad_verification_code", "device sign-in failed: bad_verification_code"),
    ] {
        match polled(Err(said.to_owned()), 5) {
            Poll::Failed(e) => assert_eq!(e.message(), expected),
            _ => panic!("{said} is final"),
        }
    }

    assert!(in_time(0, 900, 900 * SECOND).is_ok());
    assert_eq!(
        in_time(0, 900, 900 * SECOND + 1).err().unwrap().message(),
        "the device code expired before it was used"
    );
    assert!(matches!(
        device_refusal(None, "503 Service Unavailable"),
        Error::BadRequest(_)
    ));
}

#[test]
fn a_ticket_is_redeemed_once_and_peeked_at_often() {
    let mut sign_ins = SignIns::new();
    let ticket = sign_ins.begin(None, 0);
    assert_eq!(ticket.len(), 36);
    assert!(matches!(sign_ins.status(&ticket), Status::Pending));
    assert!(sign_ins.redeem(&ticket).is_none());

    sign_ins.finish(&ticket, Ok(tokens(Some("r"), 0)));
    assert!(matches!(
        sign_ins.status(&ticket),
        Status::Ready { account } if account == "ada@contoso.com"
    ));
    assert!(sign_ins.peek(&ticket).is_some());
    assert!(sign_ins.peek(&ticket).is_some());
    assert!(sign_ins.redeem(&ticket).is_some());
    assert!(sign_ins.redeem(&ticket).is_none());
    assert!(matches!(sign_ins.status(&ticket), Status::Unknown));

    let failing = sign_ins.begin(None, 0);
    assert_ne!(failing, ticket);
    sign_ins.finish(&failing, Err(Error::BadRequest("no".to_owned())));
    assert!(matches!(
        sign_ins.status(&failing),
        Status::Failed { error } if error == "no"
    ));
}

#[test]
fn a_sign_in_nobody_finished_is_swept_away() {
    let mut sign_ins = SignIns::new();
    let old = SignIn {
        progress: Progress::Pending,
        prompt: None,
        started: 0,
    };
    sign_ins.insert("old".to_owned(), old, 0);
    assert!(matches!(sign_ins.status("old"), Status::Pending));
    let _ = sign_ins.begin(None, 24 * 3600 * SECOND);
    assert!(matches!(sign_ins.status("old"), Status::Unknown));
}

fn at(host: &str, path: &str) -> Location {
    locate(host, Some(path)).unwrap()
}

#[test]
fn a_bare_account_becomes_its_hostname() {
    assert_eq!(at("contoso", "sales").host, "contoso.dfs.core.windows.net");
}

#[test]
fn a_blob_hostname_is_the_same_account() {
    assert_eq!(
        at("contoso.blob.core.windows.net", "sales").host,
        "contoso.dfs.core.windows.net"
    );
    assert_eq!(
        at("onelake.dfs.fabric.microsoft.com", "ws").host,
        "onelake.dfs.fabric.microsoft.com"
    );
}

#[test]
fn the_first_segment_is_the_filesystem_and_the_rest_is_how_far_in() {
    assert_eq!(
        at("contoso", "sales/exports/2026"),
        Location {
            host: "contoso.dfs.core.windows.net".to_owned(),
            filesystem: "sales".to_owned(),
            prefix: "exports/2026".to_owned(),
        }
    );
    assert_eq!(at("contoso", "/sales/").prefix, "");
    assert_eq!(at("contoso", "/sales/").filesystem, "sales");
}

#[test]
fn a_onelake_lakehouse_path_survives_intact() {
    let located = at(
        "https://onelake.dfs.fabric.microsoft.com",
        "Sales/Bronze.Lakehouse/Files/exports",
    );
    assert_eq!(located.filesystem, "Sales");
    assert_eq!(located.prefix, "Bronze.Lakehouse/Files/exports");
}

#[test]
fn an_abfss_url_is_taken_apart_rather_than_taken_literally() {
    let url = "abfss://9c941a04-8002-496a-bb89-399b9ca8078e@onelake.dfs.fabric.microsoft.com\
               /4b764d50-3ea8-4003-a6d8-07c321ea354b/Files/exports";
    let expected = Location {
        host: "onelake.dfs.fabric.microsoft.com".to_owned(),
        filesystem: "9c941a04-8002-496a-bb89-399b9ca8078e".to_owned(),
        prefix: "4b764d50-3ea8-4003-a6d8-07c321ea354b/Files/exports".to_owned(),
    };

    assert_eq!(locate(url, None).unwrap(), expected);
    assert_eq!(locate("", Some(url)).unwrap(), expected);
    assert_eq!(locate("contoso", Some(url)).unwrap(), expected);
}

#[test]
fn an_https_url_puts_the_filesystem_first_instead() {
    assert_eq!(
        locate("https://contoso.dfs.core.windows.net/sales/exports/2026", None).unwrap(),
        Location {
            host: "contoso.dfs.core.windows.net".to_owned(),
            filesystem: "sales".to_owned(),
            prefix: "exports/2026".to_owned(),
        }
    );
    assert_eq!(
        locate("abfss://sales@contoso.dfs.core.windows.net", None)
            .unwrap()
            .prefix,
        ""
    );
}

#[test]
fn a_blob_host_in_a_url_is_asked_on_its_dfs_name() {
    assert_eq!(
        locate("https://contoso.blob.core.windows.net/sales", None).unwrap(),
        Location {
            host: "contoso.dfs.core.windows.net".to_owned(),
            filesystem: "sales".to_owned(),
            prefix: String::new(),
        }
    );
    assert_eq!(
        locate("abfss://sales@contoso.blob.core.windows.net/exports", None)
            .unwrap()
            .host,
        "contoso.dfs.core.windows.net"
    );
}

#[test]
fn a_location_is_read_back_from_its_url() {
    for (host, filesystem, prefix) in [
        ("contoso.dfs.core.windows.net", "sales", "exports/2026"),
        ("contoso.dfs.core.windows.net", "sales", ""),
        ("onelake.dfs.fabric.microsoft.com", "ws", "lake/Files"),
    ] {
        let location = Location {
            host: host.to_owned(),
            filesystem: filesystem.to_owned(),
            prefix: prefix.to_owned(),
        };
        let url = format!("abfss://{filesystem}@{host}/{prefix}");
        assert_eq!(locate(&url, None).unwrap(), location);
        assert_eq!(locate("elsewhere", Some(&url)).unwrap(), location);
    }
}

#[test]
fn a_url_that_names_half_a_location_is_refused() {
    assert!(locate("abfss://onelake.dfs.fabric.microsoft.com/ws", None).is_err());
    assert!(locate("wasbs://sales@contoso.blob.core.windows.net", None).is_err());
}

#[test]
fn what_cannot_be_read_is_refused_rather_than_guessed() {
    assert!(locate("", Some("sales")).is_err());
    assert!(locate("contoso", None).is_err());
    assert!(locate("contoso", Some("  ")).is_err());
    assert!(locate("contoso.dfs.core.windows.net/sales", Some("x")).is_err());

    let pasted = locate("https://contoso.dfs.core.windows.net/sales", Some("x")).unwrap();
    assert_eq!(pasted.filesystem, "sales");
    assert_eq!(pasted.host, "contoso.dfs.core.windows.net");
}

#[test]
fn a_path_keeps_its_separators_and_loses_everything_else() {
    assert_eq!(
        encode_path("Bronze.Lakehouse/Files/a b"),
        "Bronze.Lakehouse/Files/a%20b"
    );
    assert_eq!(encode_query("a/b"), "a%2Fb");
    assert_eq!(encode_query("2026-01_final.csv"), "2026-01_final.csv");
}

#[test]
fn a_listing_keeps_files_and_puts_them_in_order() {
    let listed = vec![
        PathEntry {
            name: "b.csv".to_owned(),
            is_directory: None,
            content_length: Some("12".to_owned()),
            etag: Some("e".to_owned()),
        },
        PathEntry {
            name: "sub".to_owned(),
            is_directory: Some("true".to_owned()),
            content_length: None,
            etag: None,
        },
        PathEntry {
            name: "a.csv".to_owned(),
            is_directory: Some("false".to_owned()),
            content_length: Some("lots".to_owned()),
            etag: None,
        },
    ];
    let mut entries: Vec<Entry> = Vec::new();
    add_page(&mut entries, &listed);
    let found = finish_listing(entries);
    let names: Vec<&str> = found.iter().map(|entry| entry.path.as_str()).collect();
    assert_eq!(names, ["a.csv", "b.csv"]);
    assert_eq!(found[1].bytes, 12);
    assert_eq!(found[0].bytes, 0);
}

#[test]
fn addresses_are_built_from_a_location() {
    let location = at("contoso", "sales/exports");
    let listing = list_url(&location, None);
    assert!(
        listing.starts_with("https://contoso.dfs.core.windows.net/sales?"),
        "{listing}"
    );
    assert!(list_url(&location, Some("t&k")).contains("t%26k"));
    assert_eq!(
        file_url(&location, "exports/a b.csv"),
        "https://contoso.dfs.core.windows.net/sales/exports/a%20b.csv"
    );
    let denied = explain(&location, 403, "403 Forbidden", "AuthorizationFailure", "list");
    assert!(
        denied.message().contains("Storage Blob Data Reader"),
        "{}",
        denied.message()
    );
}

#[test]
fn the_url_reaches_the_browser_in_one_piece() {
    let url = authorize_url(
        &Credential::default(),
        "http://localhost:51234",
        "https://storage.azure.com/.default offline_access",
        "st4te",
        "ch4llenge",
    );
    assert!(!url.contains('"'), "nothing in it can close a quote");

    for (windows, macos, program) in [
        (false, false, "xdg-open"),
        (false, true, "open"),
        (true, false, "cmd"),
    ] {
        let command = browser_command(&url, windows, macos);
        assert_eq!(command.program, program);
        assert_eq!(command.raw, windows);
        let line = command.argument;
        assert!(line.contains(&url), "the URL was broken up: {line}");
        if windows {
            assert!(
                line.contains(&format!("\"{url}\"")),
                "cmd stops at the first `&` unless the URL is quoted: {line}"
            );
            assert_eq!(line, format!("/c start \"\" \"{url}\""));
        } else {
            assert_eq!(line, url);
        }
    }
}
