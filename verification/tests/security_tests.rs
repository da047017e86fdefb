use webby::error::{WebbyError, WebbyResult};
use webby::weburl::WebUrl;
use webby::security::{
    CorsDecision, Origin, check_cors, cors_decision, mixed_content_diagnostic, mixed_content_for,
    origin_for_url, origin_from_url_parts, origin_key, same_origin,
};

fn parse_url(raw: &str) -> WebbyResult<WebUrl> {
    WebUrl::parse(raw).ok_or_else(|| WebbyError::Url {
        message: format!("test URL parse failed: {raw}"),
    })
}

#[test]
fn origin_model_covers_scheme_host_port_and_file() -> WebbyResult<()> {
    let https = parse_url("https://Example.test/path")?;
    let http = parse_url("http://example.test:8080/path")?;
    let file = parse_url("file:///tmp/page.html")?;

    assert_eq!(origin_for_url(&https)?.key(), "https://example.test:443");
    assert_eq!(origin_for_url(&http)?.key(), "http://example.test:8080");
    assert_eq!(origin_for_url(&file)?.key(), "file://local");
    Ok(())
}

#[test]
fn same_origin_compares_normalized_origin_tuple() -> WebbyResult<()> {
    let page = parse_url("https://example.test/a")?;
    let same = parse_url("https://EXAMPLE.test:443/b")?;
    let other_port = parse_url("https://example.test:444/b")?;

    assert!(same_origin(&page, &same));
    assert!(!same_origin(&page, &other_port));
    Ok(())
}

#[test]
fn cors_allows_same_origin_wildcard_and_exact_origin() -> WebbyResult<()> {
    let page = parse_url("https://example.test/a")?;
    let same = parse_url("https://example.test/b")?;
    let cross = parse_url("https://api.example.test/data")?;

    assert_eq!(check_cors(&page, &same, &[]), CorsDecision::Allowed);
    assert_eq!(
        check_cors(
            &page,
            &cross,
            &[("Access-Control-Allow-Origin".to_string(), "*".to_string())],
        ),
        CorsDecision::Allowed
    );
    assert_eq!(
        check_cors(
            &page,
            &cross,
            &[(
                "access-control-allow-origin".to_string(),
                "https://example.test:443".to_string(),
            )],
        ),
        CorsDecision::Allowed
    );
    assert!(matches!(
        check_cors(&page, &cross, &[]),
        CorsDecision::Blocked(message) if message.contains("CORS blocked")
    ));
    Ok(())
}

#[test]
fn mixed_content_diagnostic_is_https_to_http_only() -> WebbyResult<()> {
    let page = parse_url("https://example.test/")?;
    let insecure = parse_url("http://example.test/image.png")?;
    let secure = parse_url("https://example.test/image.png")?;

    assert!(mixed_content_diagnostic(&page, &insecure).is_some());
    assert!(mixed_content_diagnostic(&page, &secure).is_none());
    assert_eq!(origin_key(&page)?, "https://example.test:443");
    Ok(())
}

#[test]
fn origin_parts_lowercase_scheme_and_host() {
    let origin = origin_from_url_parts("HTTP", Some("Example.TEST"), Some(80));
    assert!(origin.is_err());
    let origin = origin_from_url_parts("http", Some("Example.TEST"), Some(80)).expect("origin");
    assert_eq!(
        origin,
        Origin::Tuple {
            scheme: "http".to_string(),
            host: "example.test".to_string(),
            port: 80,
        }
    );
    assert_eq!(origin.serialized_for_cors(), "http://example.test:80");
}

#[test]
fn origin_errors_name_the_missing_part() {
    assert_eq!(
        origin_from_url_parts("https", None, Some(443)),
        Err(WebbyError::InvalidInput {
            message: "origin requires host for https".to_string()
        })
    );
    assert_eq!(
        origin_from_url_parts("https", Some("a.test"), None),
        Err(WebbyError::InvalidInput {
            message: "origin requires port for https".to_string()
        })
    );
    assert_eq!(
        origin_from_url_parts("data", None, None),
        Err(WebbyError::Unsupported {
            message: "security origin is unsupported for data: URLs".to_string()
        })
    );
    assert_eq!(origin_from_url_parts("file", None, None), Ok(Origin::LocalFile));
}

#[test]
fn cors_decision_reports_page_origin_and_resource() {
    let page = origin_from_url_parts("https", Some("a.test"), Some(443));
    let resource = origin_from_url_parts("https", Some("b.test"), Some(443));
    let headers = vec![(" Access-Control-Allow-Origin".to_string(), "*".to_string())];
    assert_eq!(
        cors_decision(&page, &resource, "https://a.test/", "https://b.test/x", &headers),
        CorsDecision::Blocked("CORS blocked request from https://a.test:443 to https://b.test/x".to_string())
    );
    let headers = vec![("access-control-allow-origin".to_string(), "  https://a.test:443 ".to_string())];
    assert_eq!(
        cors_decision(&page, &resource, "https://a.test/", "https://b.test/x", &headers),
        CorsDecision::Allowed
    );
    let unsupported = origin_from_url_parts("data", None, None);
    assert_eq!(
        cors_decision(&unsupported, &resource, "data:,x", "https://b.test/x", &[]),
        CorsDecision::Blocked(
            "CORS blocked request from unsupported origin data:,x to https://b.test/x".to_string()
        )
    );
    assert_eq!(
        cors_decision(&unsupported, &unsupported, "data:,x", "data:,y", &[]),
        CorsDecision::Allowed
    );
}

#[test]
fn mixed_content_text_names_both_urls() {
    assert_eq!(
        mixed_content_for("https", "http", "https://a.test/", "http://a.test/i.png"),
        Some(
            "mixed content diagnostic: HTTPS page https://a.test/ referenced insecure resource http://a.test/i.png"
                .to_string()
        )
    );
    assert_eq!(mixed_content_for("http", "http", "x", "y"), None);
    assert_eq!(mixed_content_for("https", "https", "x", "y"), None);
}
