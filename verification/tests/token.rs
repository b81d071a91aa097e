use base64::engine::general_purpose::URL_SAFE_NO_PAD;
use base64::Engine;
use redbook::apple::token::{
    bundle, find_asset, first_usable, is_token_char, jwts, payload, payload_of, usable, Claims,
    Token, TokenStep, TokenStore, EXPIRY_MARGIN, HOME,
};

fn token(text: &str, expires_at: u64) -> Token {
    Token {
        token: text.to_string(),
        expires_at,
    }
}

fn claims(exp: u64, origin: Option<&str>) -> Option<Claims> {
    Some(Claims {
        exp,
        origin: origin.map(str::to_string),
    })
}

#[test]
fn tokens_are_used_until_shortly_before_they_expire() {
    assert!(token("t", 1301).fresh(1000));
    assert!(!token("t", 1000 + EXPIRY_MARGIN).fresh(1000));
    assert!(!token("t", 5).fresh(0));
    assert!(token("t", u64::MAX).fresh(u64::MAX - EXPIRY_MARGIN - 1));
    assert!(!token("t", u64::MAX).fresh(u64::MAX - EXPIRY_MARGIN));
}

#[test]
fn a_token_is_kept_then_loaded_then_scraped() {
    let mut store = TokenStore::default();
    assert!(matches!(store.get(1000), TokenStep::Load));
    assert!(matches!(store.loaded(None, 1000), TokenStep::Scrape));
    assert!(matches!(store.loaded(Some(token("old", 1200)), 1000), TokenStep::Scrape));
    assert!(store.cached.is_none());
    assert!(
        matches!(store.loaded(Some(token("stored", 2000)), 1000), TokenStep::Use(secret) if secret == "stored")
    );
    assert!(matches!(store.get(1000), TokenStep::Use(secret) if secret == "stored"));
    assert!(matches!(store.get(1700), TokenStep::Load));
    let tokens = vec!["bound".to_string(), "new".to_string()];
    let all = vec![claims(8000, Some("o")), claims(9000, None)];
    assert_eq!(store.scraped("/x.js", &tokens, &all, 1700), Ok("new".to_string()));
    assert_eq!(store.cached.as_ref().unwrap().expires_at, 9000);
    assert!(matches!(store.get(1700), TokenStep::Use(secret) if secret == "new"));
    store.invalidate();
    assert!(matches!(store.get(1700), TokenStep::Load));
    assert!(matches!(store.loaded(None, 1700), TokenStep::Scrape));
    assert_eq!(
        store.scraped("/x.js", &tokens, &all, 9000),
        Err("apple: no usable developer token in /x.js".to_string())
    );
    assert!(store.cached.is_none());
    assert_eq!(store.scraped("/x.js", &tokens, &all, 1700), Ok("new".to_string()));
}

#[test]
fn the_bundle_is_found_on_the_page() {
    let html = "<script src=\"/assets/index-legacy~a-B_9.js\"></script>";
    assert_eq!(find_asset(html), Some("/assets/index-legacy~a-B_9.js".to_string()));
    assert_eq!(
        find_asset("/assets/index-legacy.js.js"),
        Some("/assets/index-legacy.js".to_string())
    );
    assert_eq!(find_asset("/assets/index-legacy~a b.js"), None);
    assert_eq!(find_asset("/assets/index-legacy~é.js"), None);
    assert_eq!(find_asset("/assets/index-legacy~ab"), None);
    assert_eq!(find_asset("/assets/index.js"), None);
    assert_eq!(find_asset("/assets/index-legacy!.js /assets/index-legacy-1.js"), None);
}

#[test]
fn a_page_without_a_bundle_is_an_error() {
    let (asset, url) = bundle("x /assets/index-legacy-1.js").ok().unwrap();
    assert_eq!(asset, "/assets/index-legacy-1.js");
    assert_eq!(url, format!("{HOME}/assets/index-legacy-1.js"));
    assert_eq!(
        bundle("<html>").err().unwrap(),
        "apple: no /assets/index-legacy bundle referenced by https://beta.music.apple.com"
    );
}

#[test]
fn tokens_are_found_by_their_shape() {
    let js = "a=\"eyJh.eyJi.c-_\";b='eyJx.y';c=eyJ..z;d=eyJ1.2.3.4 eyJq.r.s";
    assert_eq!(jwts(js), vec!["eyJh.eyJi.c-_", "eyJq.r.s"]);
    assert!(jwts("").is_empty());
    assert!(jwts("no token").is_empty());
    assert_eq!(jwts("éeyJa.b.cé"), vec!["eyJa.b.c"]);
    for c in ['a', 'Z', '0', '.', '-', '_'] {
        assert!(is_token_char(c));
    }
    for c in ['~', '=', '"', 'é', ' '] {
        assert!(!is_token_char(c));
    }
}

#[test]
fn the_second_part_of_a_token_is_decoded() {
    let text = "{\"exp\":12,\"name\":\"ÿþ?\"}";
    let jwt = format!("eyJx.{}.sig", URL_SAFE_NO_PAD.encode(text));
    assert_eq!(payload(&jwt), Some(text.as_bytes().to_vec()));
    assert_eq!(payload("eyJx.-_8.sig"), Some(vec![0xfb, 0xff]));
    assert_eq!(payload("eyJx.+/8.sig"), None);
    assert_eq!(payload("eyJx.YQ==.sig"), None);
    assert_eq!(payload("eyJx"), None);
    assert_eq!(payload("eyJx..sig"), Some(vec![]));
    assert_eq!(payload_of("a.b"), Some("b".to_string()));
    assert_eq!(payload_of("a"), None);
}

#[test]
fn tokens_bound_to_an_origin_or_expired_are_of_no_use() {
    let found = usable("jwt", &claims(2000, None), 1999).unwrap();
    assert_eq!(found.token, "jwt");
    assert_eq!(found.expires_at, 2000);
    assert!(usable("jwt", &claims(2000, None), 2000).is_none());
    assert!(usable("jwt", &claims(2000, Some("x")), 0).is_none());
    assert!(usable("jwt", &None, 0).is_none());
}

#[test]
fn the_first_token_of_use_is_taken() {
    let tokens: Vec<String> = ["a", "b", "c", "d"].iter().map(|t| t.to_string()).collect();
    let all = vec![None, claims(50, Some("o")), claims(60, None), claims(70, None)];
    let found = first_usable("/x.js", &tokens, &all, 10).ok().unwrap();
    assert_eq!(found.token, "c");
    assert_eq!(found.expires_at, 60);
    assert_eq!(
        first_usable("/x.js", &tokens, &all, 70).err().unwrap(),
        "apple: no usable developer token in /x.js"
    );
}
