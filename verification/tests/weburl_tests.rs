use webby::weburl::WebUrl;

#[test]
fn parsing_reads_the_parts_of_a_url() {
    let url = WebUrl::parse("HTTPS://Example.test/a/b.html?q=1").expect("valid URL");

    assert_eq!(url.as_str(), "https://example.test/a/b.html?q=1");
    assert_eq!(url.scheme(), "https");
    assert_eq!(url.host().as_deref(), Some("example.test"));
    assert_eq!(url.port(), Some(443));
    assert_eq!(url.segments(), &Some(vec!["a".to_string(), "b.html".to_string()]));
    assert_eq!(WebUrl::parse("not a url"), None);
}

#[test]
fn joining_resolves_relative_references() {
    let base = WebUrl::parse("https://example.test/docs/index.html").expect("valid URL");

    assert_eq!(
        base.join("../img/x.png").map(|u| u.as_str().to_string()),
        Ok("https://example.test/img/x.png".to_string())
    );
    let file = WebUrl::parse("file:///tmp/page.html").expect("valid URL");
    assert_eq!(file.host(), &None);
    assert_eq!(file.port(), None);
    assert!(WebUrl::parse("data:text/plain,x").expect("valid URL").join("y").is_err());
}
