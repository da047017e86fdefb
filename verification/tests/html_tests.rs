use webby::dom::{Document, Node, NodeKind};
use webby::error::{WebbyError, WebbyResult};
use webby::extract::{
    ScriptContent, collect_external_scripts, collect_icon_links, collect_iframes,
    collect_inline_scripts, collect_resource_hints, collect_scripts, collect_stylesheet_links,
    dump_dom, extract_document_title, extract_visible_text,
};
use webby::html::{MAX_DOM_NODES, MAX_HTML_INPUT_BYTES, parse_document, parse_document_with_diagnostics};

#[test]
fn empty_input_produces_empty_document() -> WebbyResult<()> {
    let result = parse_document("")?;

    assert_eq!(result, Document::empty());
    Ok(())
}

#[test]
fn oversized_html_input_returns_structured_error() {
    let html = "x".repeat(MAX_HTML_INPUT_BYTES + 1);
    let result = parse_document_with_diagnostics(&html);

    assert!(matches!(
        result,
        Err(WebbyError::Parse { message })
            if message.contains("HTML input") && message.contains("limit")
    ));
}

#[test]
fn dom_node_limit_returns_structured_error() {
    let mut html = String::new();
    for _ in 0..MAX_DOM_NODES {
        html.push_str("<span></span>");
    }

    let result = parse_document_with_diagnostics(&html);

    assert!(matches!(
        result,
        Err(WebbyError::Parse { message })
            if message.contains("DOM node limit")
    ));
}

#[test]
fn parses_nested_normal_tags() -> WebbyResult<()> {
    let document = parse_document("<html><body><h1>Hello</h1><p>World</p></body></html>")?;

    assert_eq!(extract_visible_text(&document), "Hello\n\nWorld");
    assert!(dump_dom(&document).contains("<h1>"));
    Ok(())
}

#[test]
fn document_title_extraction_uses_first_trimmed_title() -> WebbyResult<()> {
    let document = parse_document(
        "<head><title>  First title  </title><title>Second title</title></head><body>Visible</body>",
    )?;

    assert_eq!(extract_document_title(&document), "First title");
    Ok(())
}

#[test]
fn visible_text_walks_dom_order() {
    let mut document = Document::empty();
    document.root.children.push(Node::text("Hello "));
    document.root.children.push(Node::text("Webby"));

    assert_eq!(extract_visible_text(&document), "Hello Webby");
}

#[test]
fn parses_quoted_and_unquoted_attributes() -> WebbyResult<()> {
    let document = parse_document("<a href=/docs class=\"nav\" data-id='42'>Docs</a>")?;
    let Some(link) = document.root.children.first() else {
        return Err(WebbyError::Parse {
            message: "expected link element".to_string(),
        });
    };

    match &link.kind {
        NodeKind::Element(element) => {
            assert_eq!(element.tag_name, "a");
            assert_eq!(
                element.attributes.get("href").map(String::as_str),
                Some("/docs")
            );
            assert_eq!(
                element.attributes.get("class").map(String::as_str),
                Some("nav")
            );
            assert_eq!(
                element.attributes.get("data-id").map(String::as_str),
                Some("42")
            );
        }
        NodeKind::Document | NodeKind::Text(_) => {
            return Err(WebbyError::Parse {
                message: "expected link element".to_string(),
            });
        }
    }

    Ok(())
}

#[test]
fn comments_and_doctype_are_ignored() -> WebbyResult<()> {
    let document = parse_document("<!doctype html><p>Hello<!-- hidden --> world</p>")?;

    assert_eq!(extract_visible_text(&document), "Hello world");
    assert!(!dump_dom(&document).contains("hidden"));
    Ok(())
}

#[test]
fn script_and_style_are_not_visible() -> WebbyResult<()> {
    let document = parse_document(
        "<style>p { color: red; }</style><script>alert(1)</script><p>Visible</p>",
    )?;

    assert_eq!(extract_visible_text(&document), "Visible");
    assert!(dump_dom(&document).contains("alert(1)"));
    assert!(dump_dom(&document).contains("p { color: red; }"));
    Ok(())
}

#[test]
fn unknown_tags_keep_visible_child_text() -> WebbyResult<()> {
    let document = parse_document("<custom-card><span>Kept</span></custom-card>")?;

    assert_eq!(extract_visible_text(&document), "Kept");
    assert!(dump_dom(&document).contains("<custom-card>"));
    Ok(())
}

#[test]
fn br_creates_line_break() -> WebbyResult<()> {
    let document = parse_document("<p>Hello<br>Webby</p>")?;

    assert_eq!(extract_visible_text(&document), "Hello\nWebby");
    Ok(())
}

#[test]
fn malformed_nesting_does_not_panic() -> WebbyResult<()> {
    let document = parse_document("<div><p>Hello</div> tail</p>")?;

    assert_eq!(extract_visible_text(&document), "Hello\n\ntail");
    Ok(())
}

#[test]
fn optional_end_tags_recover_common_list_table_and_paragraph_markup()
-> WebbyResult<()> {
    let document = parse_document(
        "<p>one<span> inline<div>block</div><ul><li>first<li>second</ul><table><thead><tr><th>A<th>B<tbody><tr><td>1<td>2<tr><td>3<td>4</table>",
    )?;
    let dump = dump_dom(&document);

    assert!(dump.contains("<p>\n    \"one\"\n    <span>\n      \" inline\"\n  <div>"));
    assert!(dump.contains("<li>\n      \"first\"\n    <li>\n      \"second\""));
    assert!(dump.contains("<th>\n          \"A\"\n        <th>\n          \"B\""));
    assert!(dump.contains("<td>\n          \"1\"\n        <td>\n          \"2\""));
    assert!(dump.contains("<td>\n          \"3\"\n        <td>\n          \"4\""));
    Ok(())
}

#[test]
fn optional_end_tag_recovery_respects_nested_list_and_table_scopes()
-> WebbyResult<()> {
    let document = parse_document(
        "<ul><li>outer<ul><li>inner<li>second</ul><li>tail</ul><table><tr><td>outer<table><tr><td>inner</table><td>tail</table>",
    )?;
    let dump = dump_dom(&document);

    assert!(
        dump.contains("<li>\n      \"outer\"\n      <ul>\n        <li>\n          \"inner\"")
    );
    assert!(dump.contains("<li>\n          \"second\"\n    <li>\n      \"tail\""));
    assert!(dump.contains(
        "<td>\n        \"outer\"\n        <table>\n          <tr>\n            <td>\n              \"inner\""
    ));
    assert!(dump.contains("<td>\n        \"tail\""));
    Ok(())
}

#[test]
fn escapable_raw_text_elements_preserve_markup_like_text_and_decode_entities()
-> WebbyResult<()> {
    let document =
        parse_document("<title>A &amp; <b>literal</title><textarea>x &lt; <i>y</textarea>")?;
    let dump = dump_dom(&document);

    assert!(dump.contains("<title>\n    \"A & <b>literal\""));
    assert!(dump.contains("<textarea>\n    \"x < <i>y\""));
    Ok(())
}

#[test]
fn title_is_hidden_from_visible_text_even_outside_head() -> WebbyResult<()> {
    let document = parse_document("<title>Metadata</title><p>Visible</p>")?;

    assert_eq!(extract_visible_text(&document), "Visible");
    Ok(())
}

#[test]
fn unclosed_escapable_raw_text_is_preserved_with_diagnostic() -> WebbyResult<()> {
    let parsed = parse_document_with_diagnostics("<textarea>x &amp; <b>literal")?;

    assert!(dump_dom(&parsed.document).contains("\"x & <b>literal\""));
    assert_eq!(
        parsed.diagnostics[0].message,
        "unclosed textarea element preserved through end of input"
    );
    Ok(())
}

#[test]
fn raw_text_elements_do_not_decode_entities() -> WebbyResult<()> {
    let document = parse_document("<script>const x = '&amp;';</script>")?;

    assert!(dump_dom(&document).contains("\"const x = '&amp;';\""));
    Ok(())
}

#[test]
fn parser_recovery_diagnostics_are_deterministic() -> WebbyResult<()> {
    let parsed = parse_document_with_diagnostics("<p>kept<!-- missing")?;

    assert_eq!(extract_visible_text(&parsed.document), "kept");
    assert_eq!(parsed.diagnostics.len(), 1);
    assert_eq!(parsed.diagnostics[0].offset, 7);
    assert_eq!(
        parsed.diagnostics[0].message,
        "unclosed comment ignored through end of input"
    );
    Ok(())
}

#[test]
fn foreign_content_fallback_keeps_unknown_tree_content() -> WebbyResult<()> {
    let document = parse_document("<svg><foreignObject><p>Fallback</foreignObject></svg>")?;
    let dump = dump_dom(&document);

    assert!(dump.contains("<svg>"));
    assert!(dump.contains("<foreignobject>"));
    assert_eq!(extract_visible_text(&document), "Fallback");
    Ok(())
}

#[test]
fn text_whitespace_is_normalized() -> WebbyResult<()> {
    let document = parse_document("<p> Hello\n   from\t\tWebby </p>")?;

    assert_eq!(extract_visible_text(&document), "Hello from Webby");
    Ok(())
}

#[test]
fn entities_are_decoded_in_text_and_attributes() -> WebbyResult<()> {
    let document = parse_document("<a href=\"/search?q=webby&amp;lang=rust\">A &amp; B</a>")?;

    assert_eq!(extract_visible_text(&document), "A & B");
    assert!(dump_dom(&document).contains("href=\"/search?q=webby&lang=rust\""));
    Ok(())
}

#[test]
fn img_alt_width_and_height_attributes_are_preserved() -> WebbyResult<()> {
    let document = parse_document(
        "<img src=\"logo.png\" alt=\"Webby mark\" width=\"120\" height=\"80\">",
    )?;
    let dump = dump_dom(&document);

    assert!(dump.contains("alt=\"Webby mark\""));
    assert!(dump.contains("width=\"120\""));
    assert!(dump.contains("height=\"80\""));
    Ok(())
}

#[test]
fn form_control_attributes_are_preserved() -> WebbyResult<()> {
    let document = parse_document(
        "<form action=\"/search\" method=\"get\"><label for=\"q\">Query</label><input type=\"search\" name=\"q\" value=\"webby\" placeholder=\"Search\"><button type=\"submit\" name=\"go\" value=\"1\">Go</button></form>",
    )?;
    let dump = dump_dom(&document);

    assert!(dump.contains("<form action=\"/search\" method=\"get\">"));
    assert!(dump.contains("<label for=\"q\">"));
    assert!(
        dump.contains(
            "<input name=\"q\" placeholder=\"Search\" type=\"search\" value=\"webby\">"
        )
    );
    assert!(dump.contains("<button name=\"go\" type=\"submit\" value=\"1\">"));
    Ok(())
}

#[test]
fn richer_form_control_attributes_are_preserved() -> WebbyResult<()> {
    let document = parse_document(
        "<form action=\"/submit\" method=\"post\"><input type=\"checkbox\" name=\"ok\" value=\"yes\" checked disabled><input type=\"radio\" name=\"mode\" value=\"a\"><input type=\"password\" name=\"pw\" value=\"secret\"><input type=\"email\" name=\"mail\" value=\"a@example.test\"><select name=\"choice\"><option value=\"one\">One</option><option value=\"two\" selected>Two</option></select><textarea name=\"note\" placeholder=\"Note\">Hello</textarea><button type=\"reset\">Reset</button></form>",
    )?;
    let dump = dump_dom(&document);

    assert!(dump.contains("<form action=\"/submit\" method=\"post\">"));
    assert!(dump.contains(
        "<input checked=\"\" disabled=\"\" name=\"ok\" type=\"checkbox\" value=\"yes\">"
    ));
    assert!(dump.contains("<input name=\"mode\" type=\"radio\" value=\"a\">"));
    assert!(dump.contains("<input name=\"pw\" type=\"password\" value=\"secret\">"));
    assert!(dump.contains("<input name=\"mail\" type=\"email\" value=\"a@example.test\">"));
    assert!(dump.contains("<select name=\"choice\">"));
    assert!(dump.contains("<option selected=\"\" value=\"two\">"));
    assert!(dump.contains("<textarea name=\"note\" placeholder=\"Note\">"));
    assert!(dump.contains("<button type=\"reset\">"));
    Ok(())
}

#[test]
fn iframe_attributes_are_preserved_and_collected() -> WebbyResult<()> {
    let document = parse_document(
        "<iframe src=\"child.html\" name=\"frame\" width=\"320\" height=\"180\" sandbox></iframe>",
    )?;
    let dump = dump_dom(&document);
    let iframes = collect_iframes(&document);

    assert!(dump.contains(
        "<iframe height=\"180\" name=\"frame\" sandbox=\"\" src=\"child.html\" width=\"320\">"
    ));
    assert_eq!(iframes.len(), 1);
    assert_eq!(iframes[0].src.as_deref(), Some("child.html"));
    assert_eq!(iframes[0].name.as_deref(), Some("frame"));
    assert_eq!(iframes[0].width.as_deref(), Some("320"));
    assert_eq!(iframes[0].height.as_deref(), Some("180"));
    assert_eq!(iframes[0].sandbox.as_deref(), Some(""));
    Ok(())
}

#[test]
fn stylesheet_links_are_extracted_in_document_order() -> WebbyResult<()> {
    let document = parse_document(
        "<link rel=\"stylesheet\" href=\"base.css\"><link rel=\"StyleSheet preload\" href=\"theme.css\">",
    )?;
    let links = collect_stylesheet_links(&document);

    assert_eq!(links.len(), 2);
    assert_eq!(links[0].href, "base.css");
    assert_eq!(links[1].href, "theme.css");
    assert_eq!(links[1].rel, "StyleSheet preload");
    Ok(())
}

#[test]
fn non_stylesheet_links_are_ignored() -> WebbyResult<()> {
    let document = parse_document(
        "<link rel=\"icon\" href=\"favicon.ico\"><link href=\"missing-rel.css\">",
    )?;

    assert!(collect_stylesheet_links(&document).is_empty());
    Ok(())
}

#[test]
fn favicon_links_are_extracted_in_document_order() -> WebbyResult<()> {
    let document = parse_document(
        "<link rel=\"shortcut icon\" href=\"favicon.ico\" sizes=\"16x16\" type=\"image/x-icon\"><link rel=\"apple-touch-icon\" href=\"touch.png\">",
    )?;
    let links = collect_icon_links(&document);

    assert_eq!(links.len(), 2);
    assert_eq!(links[0].href, "favicon.ico");
    assert_eq!(links[0].sizes.as_deref(), Some("16x16"));
    assert_eq!(links[0].media_type.as_deref(), Some("image/x-icon"));
    assert_eq!(links[1].href, "touch.png");
    Ok(())
}

#[test]
fn resource_hints_are_extracted_as_noop_metadata() -> WebbyResult<()> {
    let document = parse_document(
        "<link rel=\"preload\" href=\"hero.png\"><link rel=\"preconnect\" href=\"https://cdn.example\"><link rel=\"stylesheet\" href=\"site.css\">",
    )?;
    let hints = collect_resource_hints(&document);

    assert_eq!(hints.len(), 2);
    assert_eq!(hints[0].href.as_deref(), Some("hero.png"));
    assert_eq!(hints[1].rel, "preconnect");
    Ok(())
}

#[test]
fn inline_scripts_are_collected_in_document_order() -> WebbyResult<()> {
    let document = parse_document(
        "<script>console.log('one')</script><script src=\"later.js\"></script><script>console.log('two')</script>",
    )?;
    let scripts = collect_inline_scripts(&document);

    assert_eq!(scripts.len(), 2);
    assert_eq!(scripts[0].label, "inline script 1");
    assert_eq!(scripts[0].text, "console.log('one')");
    assert_eq!(scripts[1].label, "inline script 2");
    assert_eq!(scripts[1].text, "console.log('two')");
    Ok(())
}

#[test]
fn external_scripts_are_collected_in_document_order() -> WebbyResult<()> {
    let document = parse_document(
        "<script src=\"one.js\"></script><script>console.log('inline')</script><script src=\"two.js\"></script>",
    )?;
    let scripts = collect_external_scripts(&document);

    assert_eq!(scripts.len(), 2);
    assert_eq!(scripts[0].label, "external script 1");
    assert_eq!(scripts[0].src, "one.js");
    assert_eq!(scripts[1].label, "external script 2");
    assert_eq!(scripts[1].src, "two.js");
    Ok(())
}

#[test]
fn scripts_are_collected_with_loading_metadata_in_document_order() -> WebbyResult<()>
{
    let document = parse_document(
        "<script src=\"one.js\"></script><script defer src=\"defer.js\"></script><script type=\"text/javascript\">console.log('inline')</script><script async src=\"async.js\"></script>",
    )?;
    let scripts = collect_scripts(&document);

    assert_eq!(scripts.len(), 4);
    assert_eq!(scripts[0].label, "external script 1");
    assert_eq!(scripts[1].label, "external script 2");
    assert!(scripts[1].defer);
    assert_eq!(scripts[2].label, "inline script 1");
    assert_eq!(scripts[2].script_type.as_deref(), Some("text/javascript"));
    assert_eq!(
        scripts[2].content,
        ScriptContent::Inline("console.log('inline')".to_string())
    );
    assert_eq!(scripts[3].label, "external script 3");
    assert!(scripts[3].async_attr);
    Ok(())
}

#[test]
fn script_close_lookalike_does_not_truncate_script() -> WebbyResult<()> {
    let document = parse_document(
        "<script>console.log('</scripture>');console.log('</scriptfoo>');</script>",
    )?;
    let scripts = collect_inline_scripts(&document);

    assert_eq!(scripts.len(), 1);
    assert_eq!(
        scripts[0].text,
        "console.log('</scripture>');console.log('</scriptfoo>');"
    );
    Ok(())
}

#[test]
fn inline_link_before_punctuation_does_not_add_extra_space() -> WebbyResult<()> {
    let document = parse_document("<p>See <a href=\"/docs\">docs</a>.</p>")?;

    assert_eq!(extract_visible_text(&document), "See docs.");
    Ok(())
}

#[test]
fn parses_unterminated_quoted_attribute_without_looping() -> WebbyResult<()> {
    let document = parse_document("<a href=\"/docs>Docs")?;

    assert_eq!(extract_visible_text(&document), "<a href=\"/docs>Docs");
    Ok(())
}

#[test]
fn repeated_less_than_inside_text_stays_text() -> WebbyResult<()> {
    let document = parse_document("1 < 2 < 3")?;

    assert_eq!(extract_visible_text(&document), "1 < 2 < 3");
    Ok(())
}

#[test]
fn unclosed_comment_is_ignored_to_end() -> WebbyResult<()> {
    let document = parse_document("<p>Visible</p><!-- hidden forever")?;

    assert_eq!(extract_visible_text(&document), "Visible");
    assert!(!dump_dom(&document).contains("hidden"));
    Ok(())
}

#[test]
fn unclosed_script_and_style_are_hidden_to_end() -> WebbyResult<()> {
    let script_document = parse_document("<script>alert(1)")?;
    let style_document = parse_document("<style>body { color: red; }")?;

    assert_eq!(extract_visible_text(&script_document), "");
    assert_eq!(extract_visible_text(&style_document), "");
    Ok(())
}

#[test]
fn raw_text_close_requires_exact_tag_name_boundary() -> WebbyResult<()> {
    let document =
        parse_document("<script>ignored</scripture><p>Still hidden</p></script><p>Shown</p>")?;

    assert_eq!(extract_visible_text(&document), "Shown");
    assert!(dump_dom(&document).contains("Still hidden"));
    Ok(())
}

#[test]
fn style_text_with_stylesheet_literal_is_not_truncated() -> WebbyResult<()> {
    let document = parse_document(
        "<style>p::before { content: \"</stylesheet>\"; } p { color: red; }</style><p>Shown</p>",
    )?;
    let dump = dump_dom(&document);

    assert!(dump.contains("p { color: red; }"));
    assert!(dump.contains("</stylesheet>"));
    assert_eq!(extract_visible_text(&document), "Shown");
    Ok(())
}

#[test]
fn style_text_with_stylefoo_literal_is_not_truncated() -> WebbyResult<()> {
    let document = parse_document(
        "<style>p::before { content: \"</stylefoo>\"; } p { color: blue; }</style><p>Shown</p>",
    )?;
    let dump = dump_dom(&document);

    assert!(dump.contains("p { color: blue; }"));
    assert!(dump.contains("</stylefoo>"));
    assert_eq!(extract_visible_text(&document), "Shown");
    Ok(())
}

#[test]
fn dump_dom_escapes_text_quotes_newlines_and_backslashes() -> WebbyResult<()> {
    let document = parse_document("quote \"slash \\ newline\nend")?;
    let dump = dump_dom(&document);

    assert!(dump.contains("\"quote \\\"slash \\\\ newline\\nend\""));
    Ok(())
}

#[test]
fn dump_dom_escapes_attribute_quotes_entities_and_backslashes() -> WebbyResult<()> {
    let document = parse_document("<a title=\"A &quot;quote&quot; and \\ slash\">Link</a>")?;
    let dump = dump_dom(&document);

    assert!(dump.contains("title=\"A \\\"quote\\\" and \\\\ slash\""));
    Ok(())
}

#[test]
fn generated_malformed_html_inputs_do_not_panic_or_loop() -> WebbyResult<()> {
    let fragments = [
        "<",
        "</",
        "<div",
        "<p><",
        "<a href=\"unterminated",
        "<!-- comment",
        "<style>p { color: red; }</stylefoo>",
        "<script>if (a < b) {",
        "<img src=x><br><input name=q",
        "<<<<<<",
    ];

    for repeat in 1..=8 {
        let mut html = String::new();
        for index in 0..repeat {
            let fragment = fragments[index % fragments.len()];
            html.push_str(fragment);
            html.push_str("<p>visible");
        }
        let document = parse_document(&html)?;
        let dump = dump_dom(&document);
        assert!(!dump.trim().is_empty());
    }
    Ok(())
}

fn preorder_ids(node: &Node, out: &mut Vec<u64>) {
    out.push(node.id);
    for child in &node.children {
        preorder_ids(child, out);
    }
    for child in &node.shadow_children {
        preorder_ids(child, out);
    }
}

#[test]
fn parsed_documents_are_numbered_in_preorder_without_shadow_children() {
    let parsed = parse_document_with_diagnostics("<p>a<b>c</b></p><ul><li>x<li>y</ul>").expect("parse");
    let mut ids = Vec::new();
    preorder_ids(&parsed.document.root, &mut ids);
    let expected: Vec<u64> = (0..ids.len() as u64).collect();
    assert_eq!(ids, expected);
    assert!(matches!(parsed.document.root.kind, NodeKind::Document));
    assert!(parsed.diagnostics.len() <= 1);
}
