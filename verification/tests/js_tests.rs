use webby::dom::NodeKind;
use webby::html::parse_document;
use webby::js::{
    DirtyState, DomMutation, ExecutionOptions, ScriptSource, apply_dom_mutations,
    collect_static_request_urls, dirty_for_attribute_exec, mirror_node, parse_existing_id,
    ScriptEngine, run_script_sources, script_diagnostics, dom_execution_report, dom_run_gate,
    timer_run_gate, timer_error_message, dispatch_gate, dispatch_report, DomMutationReport,
};

fn text_of(document: &webby::dom::Document, id: u64) -> Option<String> {
    let node = document.find_node(id)?;
    match &node.kind {
        NodeKind::Text(text) => Some(text.clone()),
        _ => None,
    }
}

#[test]
fn static_request_url_collection_is_deterministic() {
    let scripts = vec![ScriptSource::new(
        "inline script 1",
        "fetch('/b.txt'); fetch('/a.txt'); xhr.open('GET', '/c.txt');",
    )];

    assert_eq!(
        collect_static_request_urls(&scripts),
        vec![
            "/a.txt".to_string(),
            "/b.txt".to_string(),
            "/c.txt".to_string()
        ]
    );
}

#[test]
fn static_request_urls_are_deduplicated_across_scripts() {
    let scripts = vec![
        ScriptSource::new("one", "fetch(\"/x.json\"); fetch(someVariable);"),
        ScriptSource::new("two", "fetch('/x.json', {method: 'GET'}); xhr.open(\"POST\", \"/y\"); fetch(`/z`);"),
    ];

    assert_eq!(
        collect_static_request_urls(&scripts),
        vec!["/x.json".to_string(), "/y".to_string()]
    );
}

#[test]
fn execution_defaults_are_conservative() {
    let options = ExecutionOptions::default();
    assert!(options.enabled);
    assert_eq!(options.max_scripts, 64);
    assert_eq!(options.max_script_bytes, 256 * 1024);
    assert_eq!(options.max_loop_iterations, 100_000);
}

#[test]
fn dirty_state_merge_is_a_stagewise_union() {
    let mut dirty = DirtyState::default();
    dirty.merge(dirty_for_attribute_exec("data-x"));
    assert_eq!(
        dirty,
        DirtyState {
            dom: true,
            style: false,
            layout: false,
            render: false
        }
    );
    dirty.merge(DirtyState::dom_layout_render());
    assert_eq!(dirty, DirtyState::dom_layout_render());
    dirty.merge(dirty);
    assert_eq!(dirty, DirtyState::dom_layout_render());
    dirty.merge(DirtyState::all());
    assert_eq!(dirty, DirtyState::all());
}

#[test]
fn attribute_names_choose_dirty_stages() {
    assert_eq!(dirty_for_attribute_exec("CLASS"), DirtyState::all());
    assert_eq!(dirty_for_attribute_exec("href"), DirtyState::dom_layout_render());
    assert!(!dirty_for_attribute_exec("title").layout);
}

#[test]
fn existing_ids_parse_as_unsigned_decimal() {
    assert_eq!(parse_existing_id("42"), Some(42));
    assert_eq!(parse_existing_id("+7"), Some(7));
    assert_eq!(parse_existing_id("-1"), None);
    assert_eq!(parse_existing_id("n1"), None);
    assert_eq!(parse_existing_id(""), None);
    assert_eq!(parse_existing_id("18446744073709551616"), None);
}

#[test]
fn text_content_mutation_updates_existing_node() {
    let mut document = parse_document("<body><p id=\"out\">Old</p></body>").expect("parse");
    let paragraph = document.root.children[0].children[0].id;
    let operations = vec![DomMutation::SetTextContent {
        id: paragraph.to_string(),
        text: "New".to_string(),
    }];

    let report = apply_dom_mutations(&mut document, &operations);

    assert!(report.diagnostics.is_empty());
    assert_eq!(report.dirty, DirtyState::dom_layout_render());
    let node = document.find_node(paragraph).expect("paragraph");
    assert_eq!(node.children.len(), 1);
    assert_eq!(text_of(&document, node.children[0].id), Some("New".to_string()));
}

#[test]
fn created_nodes_are_attached_with_fresh_ids() {
    let mut document = parse_document("<body><div></div></body>").expect("parse");
    let next = document.next_node_id();
    let div = document.root.children[0].children[0].id;
    let operations = vec![
        DomMutation::CreateElement {
            id: "js1".to_string(),
            tag_name: "SPAN".to_string(),
        },
        DomMutation::SetAttribute {
            id: "js1".to_string(),
            name: "Title".to_string(),
            value: "t".to_string(),
        },
        DomMutation::CreateTextNode {
            id: "js2".to_string(),
            text: "hi".to_string(),
        },
        DomMutation::AppendChild {
            parent: "js1".to_string(),
            child: "js2".to_string(),
        },
        DomMutation::AppendChild {
            parent: div.to_string(),
            child: "js1".to_string(),
        },
        DomMutation::SetAttribute {
            id: "js1".to_string(),
            name: "class".to_string(),
            value: "c".to_string(),
        },
    ];

    let report = apply_dom_mutations(&mut document, &operations);

    assert!(report.diagnostics.is_empty());
    assert_eq!(report.dirty, DirtyState::all());
    let span = document.find_node(next).expect("span");
    match &span.kind {
        NodeKind::Element(element) => {
            assert_eq!(element.tag_name, "span");
            assert_eq!(element.attributes.get("title").map(String::as_str), Some("t"));
            assert_eq!(element.attributes.get("class").map(String::as_str), Some("c"));
        }
        _ => panic!("expected element"),
    }
    assert_eq!(text_of(&document, next + 1), Some("hi".to_string()));
}

#[test]
fn skipped_mutations_report_diagnostics_in_order() {
    let mut document = parse_document("<body><p>x</p></body>").expect("parse");
    let before = document.next_node_id();
    let operations = vec![
        DomMutation::SetTextContent {
            id: "nope".to_string(),
            text: "x".to_string(),
        },
        DomMutation::Remove {
            id: "999".to_string(),
        },
        DomMutation::AttachShadow {
            host: "1".to_string(),
            mode: "closed".to_string(),
        },
        DomMutation::AppendChild {
            parent: "1".to_string(),
            child: "ghost".to_string(),
        },
    ];

    let report = apply_dom_mutations(&mut document, &operations);

    assert_eq!(
        report.diagnostics,
        vec![
            "JavaScript DOM mutation skipped invalid node nope".to_string(),
            "JavaScript DOM mutation skipped missing node 999".to_string(),
            "JavaScript Shadow DOM attachShadow skipped unsupported mode \"closed\"".to_string(),
            "JavaScript DOM mutation skipped missing child ghost".to_string(),
        ]
    );
    assert_eq!(report.dirty, DirtyState::default());
    assert_eq!(document.next_node_id(), before);
}

#[test]
fn shadow_children_can_be_attached_by_mutation() {
    let mut document = parse_document("<body><x-card>light</x-card></body>").expect("parse");
    let host = document.root.children[0].children[0].id;
    let next = document.next_node_id();
    let operations = vec![
        DomMutation::AttachShadow {
            host: host.to_string(),
            mode: "open".to_string(),
        },
        DomMutation::CreateTextNode {
            id: "t".to_string(),
            text: "shadow".to_string(),
        },
        DomMutation::AppendShadowChild {
            host: host.to_string(),
            child: "t".to_string(),
        },
    ];

    let report = apply_dom_mutations(&mut document, &operations);

    assert!(report.diagnostics.is_empty());
    let node = document.find_node(host).expect("host");
    assert_eq!(node.render_children().len(), 1);
    assert_eq!(node.render_children()[0].id, next);
    assert_eq!(text_of(&document, next), Some("shadow".to_string()));
}

#[test]
fn mirrors_copy_ids_kinds_and_children() {
    let document = parse_document("<body><p class=\"x\">Hi</p></body>").expect("parse");
    let mirror = mirror_node(&document.root);
    assert_eq!(mirror.id, "0");
    assert_eq!(mirror.kind, "document");
    let body = &mirror.children[0];
    assert_eq!(body.kind, "element");
    assert_eq!(body.tag_name, "body");
    let paragraph = &body.children[0];
    assert_eq!(paragraph.attributes.get("class").map(String::as_str), Some("x"));
    let text = &paragraph.children[0];
    assert_eq!(text.kind, "text");
    assert_eq!(text.text, "Hi");
    assert!(text.children.is_empty());
    assert_eq!(text.id, document.root.children[0].children[0].children[0].id.to_string());
}

fn limited(max_scripts: usize, max_script_bytes: usize) -> ExecutionOptions {
    ExecutionOptions {
        enabled: true,
        max_scripts,
        max_script_bytes,
        max_loop_iterations: 1000,
    }
}

#[test]
fn script_diagnostics_report_skips_and_errors_in_order() {
    let scripts = vec![
        ScriptSource::new("a", "1"),
        ScriptSource::new("b", "12345"),
        ScriptSource::new("c", "2"),
        ScriptSource::new("d", "3"),
    ];
    let errors = vec![Some("boom".to_string()), None, None, Some("late".to_string())];

    assert_eq!(
        script_diagnostics(&scripts, limited(3, 4), &errors),
        vec![
            "JavaScript error in a: boom".to_string(),
            "JavaScript skipped b: script is 5 bytes, limit is 4 bytes".to_string(),
            "JavaScript skipped d: script count limit 3 reached".to_string(),
        ]
    );
}

#[test]
fn scripts_run_in_the_engine_and_errors_are_reported() {
    let mut engine = ScriptEngine::new(boa_engine::Context::default());
    let scripts = vec![
        ScriptSource::new("ok", "var x = 1;"),
        ScriptSource::new("bad", "throw new Error('nope');"),
        ScriptSource::new("after", "x = x + 1;"),
        ScriptSource::new("late", "x = 100;"),
    ];

    let diagnostics = run_script_sources(&mut engine, &scripts, limited(3, 1000));

    assert_eq!(diagnostics.len(), 2);
    assert!(diagnostics[0].starts_with("JavaScript error in bad: "));
    assert!(diagnostics[0].contains("nope"));
    assert_eq!(diagnostics[1], "JavaScript skipped late: script count limit 3 reached");
    let x = engine
        .context
        .eval(boa_engine::Source::from_bytes("x".as_bytes()))
        .expect("x is defined");
    assert_eq!(x.as_number(), Some(2.0));
}

#[test]
fn request_urls_do_not_depend_on_script_order() {
    let a = ScriptSource::new("a", "fetch('/b'); fetch('/a');");
    let b = ScriptSource::new("b", "x.open('GET', '/c');");
    let forward = collect_static_request_urls(&[a.clone(), b.clone()]);
    let backward = collect_static_request_urls(&[b, a]);
    assert_eq!(forward, backward);
    assert_eq!(forward, vec!["/a".to_string(), "/b".to_string(), "/c".to_string()]);
}

#[test]
fn endless_loops_stop_at_the_loop_limit() {
    let mut engine = ScriptEngine::new(boa_engine::Context::default());
    let scripts = vec![ScriptSource::new("spin", "while (true) {}")];

    let diagnostics = run_script_sources(&mut engine, &scripts, limited(1, 1000));

    assert_eq!(diagnostics.len(), 1);
    assert!(diagnostics[0].starts_with("JavaScript error in spin: "));
}

#[test]
fn dom_runs_stop_early_when_empty_or_disabled() {
    let mut disabled = limited(8, 1000);
    disabled.enabled = false;
    let empty = dom_run_gate(true, limited(8, 1000)).expect("empty run stops");
    assert!(empty.diagnostics.is_empty());
    let off = dom_run_gate(false, disabled).expect("disabled run stops");
    assert_eq!(off.diagnostics, vec!["JavaScript disabled by configuration".to_string()]);
    assert!(dom_run_gate(false, limited(8, 1000)).is_none());
    assert!(timer_run_gate(disabled).is_some());
    assert!(timer_run_gate(limited(8, 1000)).is_none());
    assert!(dispatch_gate(true, limited(8, 1000)).is_some());
    assert!(dispatch_gate(false, disabled).is_some());
    assert!(dispatch_gate(false, limited(8, 1000)).is_none());
}

#[test]
fn dom_reports_put_diagnostics_in_step_order() {
    let mutations = DomMutationReport {
        diagnostics: vec!["m".to_string()],
        dirty: DirtyState { dom: true, style: false, layout: false, render: false },
    };
    let report = dom_execution_report(
        vec![timer_error_message("t")],
        mutations.clone(),
        Vec::new(),
        vec!["c".to_string()],
        vec!["log".to_string()],
        Vec::new(),
        Vec::new(),
    );
    assert_eq!(
        report.diagnostics,
        vec!["JavaScript timer error: t".to_string(), "m".to_string(), "c".to_string(), "log".to_string()]
    );
    assert!(report.dirty.dom);
    let dispatched = dispatch_report(
        "click",
        Some("bad".to_string()),
        mutations,
        Vec::new(),
        vec!["log".to_string()],
        true,
        Vec::new(),
        Vec::new(),
    );
    assert_eq!(
        dispatched.diagnostics,
        vec!["JavaScript event error in click: bad".to_string(), "m".to_string(), "log".to_string()]
    );
    assert!(dispatched.default_prevented);
}

#[test]
fn appending_a_document_node_moves_it() {
    let mut document = parse_document("<body><p>a</p><div></div></body>").expect("parse");
    let p = document.root.children[0].children[0].id;
    let div = document.root.children[0].children[1].id;
    let operations = vec![DomMutation::AppendChild {
        parent: div.to_string(),
        child: p.to_string(),
    }];

    let report = apply_dom_mutations(&mut document, &operations);

    assert!(report.diagnostics.is_empty());
    let body = &document.root.children[0];
    assert_eq!(body.children.len(), 1);
    assert_eq!(body.children[0].id, div);
    assert_eq!(body.children[0].children.len(), 1);
    assert_eq!(body.children[0].children[0].id, p);
}

#[test]
fn json_strings_are_written_as_serde_json_writes_them() {
    for text in ["plain", "quote \" and backslash \\", "line\nfeed\ttab\r", "\u{1}\u{8}\u{c}\u{1f}", "caf\u{e9} \u{2028}"] {
        assert_eq!(webby::js::json_string(text), serde_json::to_string(text).expect("json"));
    }
}

#[test]
fn timer_and_event_sources_quote_their_values() {
    let timer = webby::js::timer_callback_source("function() { say(\"hi\"); }");
    assert!(timer.contains("eval(\"(\" + \"function() { say(\\\"hi\\\"); }\" + \")\")"));
    let dispatch = webby::js::event_dispatch_source("[]", "click", 42);
    assert!(dispatch.starts_with("\nvar __webby_registered_event_handlers = [];"));
    assert!(dispatch.ends_with("__webby_dispatch_registered_event(\"click\", \"42\");\n"));
}
