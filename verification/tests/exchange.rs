use redbook::apple::exchange::{
    bearer, describe, fetched, rejection, ApiError, ErrorResponse, Exchange, Fetched, Request,
    Verdict, API,
};

#[test]
fn requests_have_a_path_and_a_query() {
    let request = Request::new("/catalog/us/albums".to_string())
        .with("filter[upc]", "123")
        .with("limit", "5");
    assert_eq!(request.url(), format!("{API}/catalog/us/albums"));
    assert_eq!(request.query.len(), 2);
    assert_eq!(request.query[0], ("filter[upc]".to_string(), "123".to_string()));
    assert_eq!(request.query[1], ("limit".to_string(), "5".to_string()));
    assert_eq!(bearer("abc"), "Bearer abc");
}

#[test]
fn answers_are_sorted_by_status() {
    for status in 0..=999u16 {
        match fetched(status, "body".to_string()) {
            Fetched::Body(body) => {
                assert!((200..=299).contains(&status));
                assert_eq!(body, "body");
            }
            Fetched::Unauthorized => assert!(status == 401 || status == 403),
            Fetched::Failed(found, body) => {
                assert!(!(200..=299).contains(&status) && status != 401 && status != 403);
                assert_eq!(found, status);
                assert_eq!(body, "body");
            }
        }
    }
}

#[test]
fn a_refused_token_is_given_up_once() {
    let mut exchange = Exchange::new();
    assert!(matches!(exchange.hear(fetched(401, String::new())), Verdict::Retry));
    assert!(matches!(exchange.hear(fetched(403, String::new())), Verdict::Rejected));
    let mut exchange = Exchange::new();
    assert!(matches!(exchange.hear(fetched(403, String::new())), Verdict::Retry));
    assert!(matches!(exchange.hear(fetched(204, "x".to_string())), Verdict::Accept(body) if body == "x"));
    let mut exchange = Exchange::new();
    assert!(
        matches!(exchange.hear(fetched(500, "y".to_string())), Verdict::Failed(500, body) if body == "y")
    );
}

#[test]
fn failures_are_described() {
    assert_eq!(describe("/x", 404, &None), "apple: /x failed with HTTP 404");
    let none = Some(ErrorResponse { errors: vec![] });
    assert_eq!(describe("/x", 404, &none), "apple: /x failed with HTTP 404");
    let plain = Some(ErrorResponse {
        errors: vec![ApiError {
            title: "Not Found".to_string(),
            detail: None,
        }],
    });
    assert_eq!(describe("/x", 404, &plain), "apple: /x failed with HTTP 404 (Not Found)");
    let detailed = Some(ErrorResponse {
        errors: vec![
            ApiError {
                title: "Bad".to_string(),
                detail: Some("no such filter".to_string()),
            },
            ApiError {
                title: "Second".to_string(),
                detail: None,
            },
        ],
    });
    assert_eq!(
        describe("/x", 400, &detailed),
        "apple: /x failed with HTTP 400 (Bad: no such filter)"
    );
    assert_eq!(rejection("/x"), "apple: /x rejected a freshly scraped token (401)");
}
