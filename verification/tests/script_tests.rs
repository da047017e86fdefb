use webby::error::{WebbyError, WebbyResult};
use webby::html::parse_document;
use webby::weburl::WebUrl;
use webby::response::{ResourceLoader, ResourceResponse};
use webby::script::{
    MAX_SCRIPT_SOURCE_BYTES, ScriptKind, label_for_url, load_document_scripts, parse_module, quoted,
    script_type, static_import_target, strip_export,
};

#[derive(Debug)]
struct TestLoader {
    resources: Vec<(String, String)>,
}

impl TestLoader {
    fn new<const N: usize>(resources: [(&str, &str); N]) -> Self {
        Self {
            resources: resources
                .into_iter()
                .map(|(url, body)| (url.to_string(), body.to_string()))
                .collect(),
        }
    }
}

impl ResourceLoader for TestLoader {
    fn load(&self, url: &WebUrl) -> WebbyResult<ResourceResponse> {
        for (resource_url, body) in &self.resources {
            if resource_url == url.as_str() {
                return Ok(ResourceResponse {
                    requested_url: url.clone(),
                    final_url: url.clone(),
                    status: Some(200),
                    content_type: Some("text/javascript".to_string()),
                    headers: Vec::new(),
                    bytes: body.as_bytes().to_vec(),
                });
            }
        }
        Err(WebbyError::Network {
            message: format!("missing test script {}", url.as_str()),
        })
    }
}

fn web_url(raw: &str) -> WebbyResult<WebUrl> {
    WebUrl::parse(raw).ok_or_else(|| WebbyError::Url {
        message: format!("test URL parse failed: {raw}"),
    })
}

#[test]
fn loads_classic_and_module_scripts_in_deterministic_order() -> WebbyResult<()> {
    let page = web_url("https://example.test/page")?;
    let dep = web_url("https://example.test/dep.js")?;
    let main = web_url("https://example.test/main.js")?;
    let loader = TestLoader::new([
        (
            dep.as_str(),
            "document.getElementById('out').textContent += ' dep';",
        ),
        (
            main.as_str(),
            "import './dep.js';\ndocument.getElementById('out').textContent += ' main';",
        ),
    ]);
    let document = parse_document(
        "<script>var order = 'classic';</script><script type=\"module\" src=\"main.js\"></script>",
    )?;

    let loaded = load_document_scripts(&document, &page, Some(&loader));

    assert_eq!(loaded.diagnostics, Vec::<String>::new());
    assert_eq!(loaded.scripts.len(), 3);
    assert_eq!(loaded.scripts[0].label, "inline script 1");
    assert!(loaded.scripts[1].label.contains("dep.js"));
    assert!(loaded.scripts[2].label.contains("main.js"));
    Ok(())
}

#[test]
fn module_cycle_is_diagnostic_and_does_not_loop() -> WebbyResult<()> {
    let page = web_url("https://example.test/page")?;
    let a = web_url("https://example.test/a.js")?;
    let b = web_url("https://example.test/b.js")?;
    let loader = TestLoader::new([
        (a.as_str(), "import './b.js';\nconsole.log('a');"),
        (b.as_str(), "import './a.js';\nconsole.log('b');"),
    ]);
    let document = parse_document("<script type=\"module\" src=\"a.js\"></script>")?;

    let loaded = load_document_scripts(&document, &page, Some(&loader));

    assert!(
        loaded
            .diagnostics
            .iter()
            .any(|diagnostic| diagnostic.contains("module cycle detected"))
    );
    assert_eq!(loaded.scripts.len(), 2);
    Ok(())
}

#[test]
fn unsupported_import_syntax_is_diagnostic() -> WebbyResult<()> {
    let page = web_url("https://example.test/page")?;
    let document = parse_document(
        "<script type=\"module\">import value from source; console.log('skip');</script>",
    )?;

    let loaded = load_document_scripts::<TestLoader>(&document, &page, None);

    assert!(loaded.scripts.is_empty());
    assert_eq!(
        loaded.diagnostics,
        vec!["JavaScript module inline script 1 skipped unsupported import syntax".to_string()]
    );
    Ok(())
}

#[test]
fn oversized_inline_script_is_skipped_with_diagnostic() -> WebbyResult<()> {
    let page = web_url("https://example.test/page")?;
    let code = "a".repeat(MAX_SCRIPT_SOURCE_BYTES + 1);
    let document = parse_document(&format!("<script>{code}</script>"))?;

    let loaded = load_document_scripts::<TestLoader>(&document, &page, None);

    assert!(loaded.scripts.is_empty());
    assert_eq!(
        loaded.diagnostics,
        vec![format!(
            "JavaScript skipped inline script 1: script is {} bytes, limit is {} bytes",
            MAX_SCRIPT_SOURCE_BYTES + 1,
            MAX_SCRIPT_SOURCE_BYTES
        )]
    );
    Ok(())
}

#[test]
fn oversized_external_script_is_skipped_with_diagnostic() -> WebbyResult<()> {
    let page = web_url("https://example.test/page")?;
    let script_url = web_url("https://example.test/big.js")?;
    let code = "a".repeat(MAX_SCRIPT_SOURCE_BYTES + 1);
    let loader = TestLoader::new([(script_url.as_str(), code.as_str())]);
    let document = parse_document("<script src=\"big.js\"></script>")?;

    let loaded = load_document_scripts(&document, &page, Some(&loader));

    assert!(loaded.scripts.is_empty());
    assert_eq!(
        loaded.diagnostics,
        vec![format!(
            "JavaScript skipped {}: script is {} bytes, limit is {} bytes",
            script_url.as_str(),
            MAX_SCRIPT_SOURCE_BYTES + 1,
            MAX_SCRIPT_SOURCE_BYTES
        )]
    );
    Ok(())
}

#[test]
fn classic_scripts_run_blocking_then_deferred_then_async() -> WebbyResult<()> {
    let page = web_url("https://example.test/page")?;
    let document = parse_document(
        "<script async>a1</script><script defer>d1</script><script>b1</script>\
         <script type=\"text/plain\">x</script><script type=\"module\">m1</script><script>b2</script>",
    )?;

    let loaded = load_document_scripts::<TestLoader>(&document, &page, None);

    let codes: Vec<&str> = loaded.scripts.iter().map(|s| s.code.as_str()).collect();
    assert_eq!(codes, vec!["b1", "b2", "d1", "a1", "m1\n"]);
    assert_eq!(
        loaded.diagnostics,
        vec!["JavaScript skipped inline script 4: unsupported script type text/plain".to_string()]
    );
    Ok(())
}

#[test]
fn external_scripts_need_a_loader() -> WebbyResult<()> {
    let page = web_url("https://example.test/page")?;
    let document = parse_document("<script src=\"x.js\"></script>")?;

    let loaded = load_document_scripts::<TestLoader>(&document, &page, None);

    assert!(loaded.scripts.is_empty());
    assert_eq!(loaded.diagnostics.len(), 1);
    assert!(loaded.diagnostics[0].contains("requires a resource loader"));
    Ok(())
}

fn chars(s: &str) -> Vec<char> {
    s.chars().collect()
}

fn text(v: Option<Vec<char>>) -> Option<String> {
    v.map(|chars| chars.into_iter().collect())
}

#[test]
fn script_types_choose_classic_module_or_unsupported() {
    assert_eq!(script_type(None), ScriptKind::Classic);
    assert_eq!(script_type(Some("")), ScriptKind::Classic);
    assert_eq!(script_type(Some(" Text/JavaScript ")), ScriptKind::Classic);
    assert_eq!(script_type(Some("module")), ScriptKind::Module);
    assert!(matches!(script_type(Some("text/plain")), ScriptKind::Unsupported(_)));
    assert_eq!(MAX_SCRIPT_SOURCE_BYTES, 256 * 1024);
}

#[test]
fn import_lines_yield_their_targets() {
    assert_eq!(
        text(static_import_target(&chars("import { a } from './a.js';"))),
        Some("./a.js".to_string())
    );
    assert_eq!(
        text(static_import_target(&chars("import \"./side.js\";"))),
        Some("./side.js".to_string())
    );
    assert_eq!(text(static_import_target(&chars("import x from y;"))), None);
    assert_eq!(text(quoted(&chars("'abc' rest"))), Some("abc".to_string()));
    assert_eq!(text(quoted(&chars("`abc`"))), None);
}

#[test]
fn export_prefixes_are_stripped() {
    let stripped: String = strip_export(&chars("export function f() {}")).into_iter().collect();
    assert_eq!(stripped, "function f() {}");
    let kept: String = strip_export(&chars("exported = 1;")).into_iter().collect();
    assert_eq!(kept, "exported = 1;");
}

#[test]
fn modules_collect_imports_and_code() {
    let mut diagnostics = Vec::new();
    let parsed = parse_module(
        "main",
        "import './dep.js';\n  export const x = 1;\nconsole.log(x);",
        &mut diagnostics,
    );
    assert!(parsed.supported);
    assert_eq!(parsed.imports, vec!["./dep.js".to_string()]);
    assert_eq!(parsed.code, "const x = 1;\nconsole.log(x);\n");
    assert!(diagnostics.is_empty());
}

#[test]
fn dynamic_imports_stop_a_module_with_a_diagnostic() {
    let mut diagnostics = vec!["earlier".to_string()];
    let parsed = parse_module("m", "let a = 1;\nimport('./x.js');\nlet b = 2;", &mut diagnostics);
    assert!(!parsed.supported);
    assert_eq!(
        diagnostics,
        vec![
            "earlier".to_string(),
            "JavaScript module m skipped unsupported dynamic import".to_string()
        ]
    );
}

#[test]
fn external_labels_get_the_url() {
    assert_eq!(
        label_for_url("external script 1".to_string(), "https://a.test/x.js"),
        "external script 1 https://a.test/x.js"
    );
    assert_eq!(label_for_url("inline script 1".to_string(), "https://a.test/"), "inline script 1");
}
