use std::time::Duration;
use webby::error::WebbyError;
use webby::net::{
    DownloadMetadata, NavigationResponseDisposition,
    BasicAuthChallenge, BasicCredentials, DEFAULT_TIMEOUT_SECS, MAX_REDIRECTS, MAX_RESPONSE_BYTES,
    basic_auth_header, charset_from_content_type, charset_from_html_meta,
    content_disposition_filename, content_disposition_is_attachment, content_type_for_extension,
    decode_text, decode_text_utf8, default_timeout, header_value, media_type,
    parse_basic_auth_challenge, redact_request_headers, sniff_content_type,
};
use webby::weburl::WebUrl;
use webby::response::{
    ResourceResponse, data_resource, disposition_for, load_data_resource, network_summary_text,
    parse_data_url, suggested_download_filename,
};

#[test]
fn text_decoder_replaces_invalid_utf8() {
    let decoded = decode_text_utf8(&[b'W', b'e', 0xFF, b'b', b'y']);

    assert_eq!(decoded, "We\u{fffd}by");
}

#[test]
fn content_type_sniffing_recognizes_common_image_bytes_without_panicking() {
    assert_eq!(
        sniff_content_type(b"\x89PNG\r\n\x1a\nrest"),
        Some("image/png")
    );
    assert_eq!(
        sniff_content_type(&[0xFF, 0xD8, 0xFF, 0x00]),
        Some("image/jpeg")
    );
    assert_eq!(sniff_content_type(b"GIF89a..."), Some("image/gif"));
    assert_eq!(sniff_content_type(b"RIFFxxxxWEBPrest"), Some("image/webp"));
    assert_eq!(sniff_content_type(&[0, 1, 2, 3, 4]), None);
}

#[test]
fn charset_decoding_uses_header_then_html_meta() {
    assert_eq!(
        decode_text(b"Caf\xe9", Some("text/html; charset=iso-8859-1")),
        "Café"
    );
    assert_eq!(
        decode_text(
            b"<meta charset=\"latin1\"><p>Caf\xe9</p>",
            Some("text/html")
        ),
        "<meta charset=\"latin1\"><p>Café</p>"
    );
}

#[test]
fn timeout_and_size_limits_are_documented_constants() {
    assert_eq!(default_timeout(), Duration::from_secs(15));
    assert_eq!(DEFAULT_TIMEOUT_SECS, 15);
    assert_eq!(MAX_RESPONSE_BYTES, 8 * 1024 * 1024);
    assert_eq!(MAX_REDIRECTS, 10);
}

#[test]
fn basic_auth_header_is_base64_of_user_and_password() {
    let credentials = BasicCredentials::new("webby", "secret");
    assert_eq!(credentials.authorization_header_value(), "Basic d2ViYnk6c2VjcmV0");
    let header = basic_auth_header(&credentials);
    assert_eq!(header.0, "Authorization");
    assert_eq!(header.1, "Basic d2ViYnk6c2VjcmV0");
    assert_eq!(
        redact_request_headers(std::slice::from_ref(&header)),
        vec![("Authorization".to_string(), "<redacted>".to_string())]
    );
    assert!(!format!("{:?}", redact_request_headers(&[header])).contains("secret"));
}

#[test]
fn redaction_covers_only_authorization_headers() {
    let headers = vec![
        ("Cookie".to_string(), "sid=1".to_string()),
        ("AUTHORIZATION".to_string(), "Basic x".to_string()),
        ("accept".to_string(), "text/html".to_string()),
    ];
    assert_eq!(
        redact_request_headers(&headers),
        vec![
            ("Cookie".to_string(), "sid=1".to_string()),
            ("AUTHORIZATION".to_string(), "<redacted>".to_string()),
            ("accept".to_string(), "text/html".to_string()),
        ]
    );
}

#[test]
fn basic_auth_challenge_reads_realm() {
    assert_eq!(
        parse_basic_auth_challenge("Basic realm=\"Members\""),
        Some(BasicAuthChallenge {
            realm: Some("Members".to_string())
        })
    );
    assert_eq!(
        parse_basic_auth_challenge("  basic   charset=UTF-8,  realm='Staff'"),
        Some(BasicAuthChallenge {
            realm: Some("Staff".to_string())
        })
    );
    assert_eq!(
        parse_basic_auth_challenge("Basic"),
        Some(BasicAuthChallenge { realm: None })
    );
    assert_eq!(parse_basic_auth_challenge("Bearer realm=\"x\""), None);
    assert_eq!(parse_basic_auth_challenge("   "), None);
}

#[test]
fn header_lookup_ignores_case_and_takes_the_first() {
    let headers = vec![
        ("Content-Type".to_string(), "text/html".to_string()),
        ("content-type".to_string(), "text/plain".to_string()),
    ];
    assert_eq!(header_value(&headers, "CONTENT-TYPE").map(String::as_str), Some("text/html"));
    assert_eq!(header_value(&headers, "x-missing"), None);
}

#[test]
fn media_type_and_disposition_helpers() {
    assert_eq!(media_type(" Text/HTML ; charset=utf-8"), "text/html");
    assert_eq!(media_type(""), "");
    assert!(content_disposition_is_attachment(" ATTACHMENT ; filename=a.txt"));
    assert!(!content_disposition_is_attachment("inline; filename=a.txt"));
    assert_eq!(
        content_disposition_filename("attachment; filename=\"quarterly report.csv\""),
        Some("quarterly report.csv".to_string())
    );
    assert_eq!(
        content_disposition_filename("attachment; FileName='a.txt'"),
        Some("a.txt".to_string())
    );
    assert_eq!(content_disposition_filename("attachment; filename=\"\""), None);
    assert_eq!(content_disposition_filename("filename=a.txt"), None);
}

#[test]
fn charset_sources_are_read_and_lowercased() {
    assert_eq!(
        charset_from_content_type("text/html; Charset=\"UTF-8\""),
        Some("utf-8".to_string())
    );
    assert_eq!(charset_from_content_type("text/html"), None);
    assert_eq!(
        charset_from_html_meta(b"<html><META CharSet = 'Windows-1252'>"),
        Some("windows-1252".to_string())
    );
    assert_eq!(charset_from_html_meta(b"<p>charset=utf-8</p>"), None);
}

#[test]
fn unknown_charsets_fall_back_to_utf8() {
    assert_eq!(decode_text(b"Caf\xc3\xa9", Some("text/html; charset=shift_jis")), "Café");
    assert_eq!(decode_text(b"Caf\xe9", None), "Caf\u{fffd}");
}

#[test]
fn html_is_sniffed_after_leading_whitespace() {
    assert_eq!(
        sniff_content_type(b"  \n<!DOCTYPE HTML><html>"),
        Some("text/html; charset=utf-8")
    );
    assert_eq!(sniff_content_type(b"<HTML>"), Some("text/html; charset=utf-8"));
    assert_eq!(sniff_content_type(b"RIFF1234WEB"), None);
}

#[test]
fn file_extensions_map_to_content_types() {
    assert_eq!(
        content_type_for_extension(Some("htm")),
        Some("text/html; charset=utf-8".to_string())
    );
    assert_eq!(content_type_for_extension(Some("jpeg")), Some("image/jpeg".to_string()));
    assert_eq!(content_type_for_extension(Some("PNG")), None);
    assert_eq!(content_type_for_extension(None), None);
}

type TestResult = Result<(), Box<dyn std::error::Error + Send + Sync>>;

fn response(
    url: &str,
    status: Option<u16>,
    content_type: Option<&str>,
    headers: Vec<(String, String)>,
    bytes: &[u8],
) -> Result<ResourceResponse, &'static str> {
    let url = WebUrl::parse(url).ok_or("invalid test URL")?;
    Ok(ResourceResponse {
        requested_url: url.clone(),
        final_url: url,
        status,
        content_type: content_type.map(str::to_string),
        headers,
        bytes: bytes.to_vec(),
    })
}

#[test]
fn navigation_disposition_renders_html_and_downloads_unsupported_media() -> TestResult {
    let html = response(
        "https://example.test/index.html",
        Some(200),
        Some("text/html; charset=utf-8"),
        Vec::new(),
        b"<html></html>",
    )?;
    assert_eq!(
        html.navigation_disposition(),
        NavigationResponseDisposition::RenderHtml
    );

    let binary = response(
        "https://example.test/files/report.pdf",
        Some(200),
        Some("application/pdf"),
        Vec::new(),
        b"%PDF",
    )?;
    assert_eq!(
        binary.navigation_disposition(),
        NavigationResponseDisposition::Download(DownloadMetadata {
            suggested_filename: "report.pdf".to_string(),
            reason: "unsupported media type application/pdf".to_string(),
        })
    );
    Ok(())
}

#[test]
fn content_disposition_attachment_downloads_with_header_filename() -> TestResult {
    let response = response(
        "https://example.test/export",
        Some(200),
        Some("text/html"),
        vec![(
            "Content-Disposition".to_string(),
            "attachment; filename=\"quarterly report.csv\"".to_string(),
        )],
        b"<p>not a page</p>",
    )?;
    assert_eq!(
        response.navigation_disposition(),
        NavigationResponseDisposition::Download(DownloadMetadata {
            suggested_filename: "quarterly report.csv".to_string(),
            reason: "content-disposition attachment".to_string(),
        })
    );
    Ok(())
}

#[test]
fn basic_auth_challenge_and_header_are_deterministic_and_redactable() -> TestResult {
    let url = WebUrl::parse("https://example.test/private").ok_or("invalid test URL")?;
    let response = ResourceResponse {
        requested_url: url.clone(),
        final_url: url.clone(),
        status: Some(401),
        content_type: Some("text/html".to_string()),
        headers: vec![(
            "WWW-Authenticate".to_string(),
            "Basic realm=\"Members\"".to_string(),
        )],
        bytes: Vec::new(),
    };
    assert_eq!(
        response.basic_auth_challenge(),
        Some(BasicAuthChallenge {
            realm: Some("Members".to_string()),
        })
    );
    assert_eq!(
        response
            .basic_auth_challenge()
            .map(|challenge| challenge.diagnostic(&url)),
        Some("HTTP Basic authentication required for https://example.test/private realm=\"Members\"".to_string())
    );

    let header = basic_auth_header(&BasicCredentials::new("webby", "secret"));
    assert_eq!(header.0, "Authorization");
    assert_eq!(
        redact_request_headers(std::slice::from_ref(&header)),
        vec![("Authorization".to_string(), "<redacted>".to_string())]
    );
    let credentials_debug = BasicCredentials::new("webby", "secret").debug_text();
    assert!(credentials_debug.contains("webby"));
    assert!(credentials_debug.contains("<redacted>"));
    assert!(!credentials_debug.contains("secret"));
    assert!(!format!("{:?}", redact_request_headers(&[header])).contains("secret"));
    Ok(())
}

#[test]
fn data_url_loader_decodes_base64_payload_and_metadata() -> TestResult {
    let url = WebUrl::parse("data:text/plain;base64,V2ViYnk=").ok_or("invalid test URL")?;

    let response = load_data_resource(&url).map_err(|error| format!("{error:?}"))?;

    assert_eq!(response.requested_url, url);
    assert_eq!(response.final_url, url);
    assert_eq!(response.content_type.as_deref(), Some("text/plain"));
    assert_eq!(decode_text_utf8(&response.bytes), "Webby");
    Ok(())
}

#[test]
fn invalid_data_url_is_structured_error() -> TestResult {
    let url = WebUrl::parse("data:text/plain;base64,not-valid!").ok_or("invalid test URL")?;

    let result = load_data_resource(&url);

    assert!(matches!(result, Err(WebbyError::Parse { .. })));
    Ok(())
}

#[test]
fn network_diagnostic_is_deterministic_and_useful() -> TestResult {
    let url = WebUrl::parse("data:text/plain,hello").ok_or("invalid test URL")?;
    let response = load_data_resource(&url).map_err(|error| format!("{error:?}"))?;

    assert_eq!(
        response.network_diagnostic(),
        format!(
            "network requested={} final={} status=None content_type=Some(\"text/plain\") bytes=5",
            url.as_str(),
            url.as_str()
        )
    );
    assert_eq!(response.byte_len(), 5);
    Ok(())
}

#[test]
fn data_urls_percent_decode_and_sniff() {
    assert_eq!(
        data_resource("data:,a%20b%zz+%4"),
        Ok((None, b"a b%zz+%4".to_vec()))
    );
    assert_eq!(
        data_resource("data:;BASE64,iVBORw0KGgo="),
        Ok((Some("image/png".to_string()), b"\x89PNG\r\n\x1a\n".to_vec()))
    );
    assert_eq!(
        data_resource("data:Text/HTML;charset=x,<p>"),
        Ok((Some("text/html".to_string()), b"<p>".to_vec()))
    );
    assert_eq!(
        data_resource("data:text/plain"),
        Err(WebbyError::Url {
            message: "invalid data URL: missing comma separator".to_string()
        })
    );
    assert_eq!(
        data_resource("http://a.test/,x"),
        Err(WebbyError::Url {
            message: "invalid data URL: http://a.test/,x".to_string()
        })
    );
    assert_eq!(
        parse_data_url("data:base64;image/gif,R0lG"),
        Ok((None, true, "R0lG".to_string()))
    );
}

#[test]
fn downloads_fall_back_to_url_segments_and_sniffing() {
    assert_eq!(
        suggested_download_filename(None, Some(vec!["a".to_string(), "b.bin".to_string(), String::new()])),
        "b.bin"
    );
    assert_eq!(suggested_download_filename(None, Some(vec![String::new()])), "download");
    assert_eq!(suggested_download_filename(Some("attachment"), None), "download");
    assert_eq!(
        disposition_for(&[], None, b"<!doctype html><p>", None),
        NavigationResponseDisposition::RenderHtml
    );
    assert_eq!(
        disposition_for(&[], None, b"\x00\x01", Some(vec!["x".to_string()])),
        NavigationResponseDisposition::Download(DownloadMetadata {
            suggested_filename: "x".to_string(),
            reason: "unknown media type".to_string(),
        })
    );
    assert_eq!(
        disposition_for(&[], Some("Application/XHTML+XML"), b"", None),
        NavigationResponseDisposition::RenderHtml
    );
}

#[test]
fn challenges_need_status_401_and_a_basic_header() -> TestResult {
    let mut response = response(
        "https://example.test/",
        Some(200),
        None,
        vec![("www-authenticate".to_string(), "Basic".to_string())],
        b"",
    )?;
    assert_eq!(response.basic_auth_challenge(), None);
    response.status = Some(401);
    assert_eq!(response.basic_auth_challenge(), Some(BasicAuthChallenge { realm: None }));
    assert_eq!(
        BasicAuthChallenge { realm: None }.diagnostic_text("https://example.test/"),
        "HTTP Basic authentication required for https://example.test/"
    );
    assert_eq!(
        network_summary_text("a", "b", Some(404), None, 0),
        "network requested=a final=b status=Some(404) content_type=None bytes=0"
    );
    Ok(())
}

#[test]
fn attachment_without_filename_is_named_after_the_last_path_segment() -> TestResult {
    let response = response(
        "https://example.test/files/report.csv/",
        Some(200),
        Some("text/html"),
        vec![("Content-Disposition".to_string(), "attachment".to_string())],
        b"a,b",
    )?;
    match response.navigation_disposition() {
        NavigationResponseDisposition::Download(metadata) => {
            assert_eq!(metadata.suggested_filename, "report.csv");
        }
        other => panic!("expected a download, got {other:?}"),
    }
    Ok(())
}
