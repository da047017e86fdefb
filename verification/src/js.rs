//! The data side of JavaScript execution: script sources, options and
//! reports, the static request-URL scan, and the application of DOM
//! mutations that scripts request.
//!
//! Running a script engine is not part of this module; it consumes what an
//! engine reports (mutation lists) and decides what they do to a document.

use vstd::prelude::*;
use crate::dom::{
    AttributeMap, Document, KindModel, Node, NodeId, NodeKind, NodeModel, lemma_children_models,
    models, node_model, sat_inc,
};
use crate::text::{chars_of, find_from, lower, text_lt};

verus! {

/// One script supplied to the JavaScript executor.
#[derive(Debug, Clone, PartialEq, Eq)]
pub struct ScriptSource {
    /// Deterministic human-facing label for diagnostics.
    pub label: String,
    /// JavaScript source code.
    pub code: String,
}

impl ScriptSource {
    /// Creates a script source with a deterministic label.
    pub fn new(label: &str, code: &str) -> (r: Self)
        ensures
            r.label@ == label@,
            r.code@ == code@,
    {
        ScriptSource {
            label: crate::text::string_from(label),
            code: crate::text::string_from(code),
        }
    }
}

/// JavaScript execution options.
#[derive(Debug, Clone, Copy, PartialEq, Eq)]
pub struct ExecutionOptions {
    /// Whether script execution is enabled.
    pub enabled: bool,
    /// Maximum inline scripts to execute. Extra scripts are skipped with a
    /// deterministic diagnostic.
    pub max_scripts: usize,
    /// Maximum bytes per script. Larger scripts are skipped with a
    /// deterministic diagnostic.
    pub max_script_bytes: usize,
    /// Maximum JavaScript loop iterations before the engine raises a runtime error.
    pub max_loop_iterations: u64,
}

impl Default for ExecutionOptions {
    fn default() -> (r: Self)
        ensures
            r.enabled,
            r.max_scripts == 64,
            r.max_script_bytes == 262144,
            r.max_loop_iterations == 100000,
    {
        ExecutionOptions {
            enabled: true,
            max_scripts: 64,
            max_script_bytes: 262144,
            max_loop_iterations: 100000,
        }
    }
}

/// Pipeline invalidation state caused by JavaScript DOM mutations.
#[derive(Debug, Clone, Copy, PartialEq, Eq)]
pub struct DirtyState {
    /// DOM tree content or attributes changed.
    pub dom: bool,
    /// Style matching or computed style may have changed.
    pub style: bool,
    /// Layout geometry may have changed.
    pub layout: bool,
    /// Rendered pixels may have changed.
    pub render: bool,
}

/// Nothing dirty.
pub open spec fn dirty_none() -> DirtyState {
    DirtyState { dom: false, style: false, layout: false, render: false }
}

/// DOM, layout and rendering dirty; style unchanged.
pub open spec fn dirty_dom_layout_render() -> DirtyState {
    DirtyState { dom: true, style: false, layout: true, render: true }
}

/// Every stage dirty.
pub open spec fn dirty_all() -> DirtyState {
    DirtyState { dom: true, style: true, layout: true, render: true }
}

/// Stage-wise union of two dirty states.
pub open spec fn dirty_union(a: DirtyState, b: DirtyState) -> DirtyState {
    DirtyState {
        dom: a.dom || b.dom,
        style: a.style || b.style,
        layout: a.layout || b.layout,
        render: a.render || b.render,
    }
}

impl Default for DirtyState {
    fn default() -> (r: Self)
        ensures
            r == dirty_none(),
    {
        DirtyState { dom: false, style: false, layout: false, render: false }
    }
}

impl DirtyState {
    /// DOM, layout and rendering dirty; style unchanged.
    pub fn dom_layout_render() -> (r: Self)
        ensures
            r == dirty_dom_layout_render(),
    {
        DirtyState { dom: true, style: false, layout: true, render: true }
    }

    /// Every stage dirty.
    pub fn all() -> (r: Self)
        ensures
            r == dirty_all(),
    {
        DirtyState { dom: true, style: true, layout: true, render: true }
    }

    /// Marks dirty every stage that `other` marks.
    pub fn merge(&mut self, other: Self)
        ensures
            *final(self) == dirty_union(*old(self), other),
    {
        self.dom = self.dom || other.dom;
        self.style = self.style || other.style;
        self.layout = self.layout || other.layout;
        self.render = self.render || other.render;
    }
}

/// Merging is idempotent, commutative and has no dirty stage as identity.
pub proof fn lemma_dirty_union_laws(a: DirtyState, b: DirtyState, c: DirtyState)
    ensures
        dirty_union(a, a) == a,
        dirty_union(a, b) == dirty_union(b, a),
        dirty_union(dirty_union(a, b), c) == dirty_union(a, dirty_union(b, c)),
        dirty_union(a, dirty_none()) == a,
        dirty_union(a, dirty_all()) == dirty_all(),
{
}

/// JavaScript event handler registered on a DOM node.
#[derive(Debug, Clone, PartialEq, Eq)]
pub struct EventHandler {
    /// DOM node id that owns the handler.
    pub id: String,
    /// Event type, such as `click`, `input`, or `submit`.
    pub event_type: String,
    /// JavaScript function source captured at registration time.
    pub handler: String,
}

/// JavaScript browser API request for the app shell to apply.
#[derive(Debug, Clone, PartialEq, Eq)]
pub enum BrowserAction {
    /// `location.href = ...` or `location.assign(...)`.
    Navigate { url: String, replace: bool },
    /// `history.back()`.
    HistoryBack,
    /// `history.forward()`.
    HistoryForward,
    /// `setTimeout(...)`.
    SetTimeout { id: u32, callback: String, delay_ms: u32 },
    /// `clearTimeout(...)`.
    ClearTimeout { id: u32 },
}

/// Preloaded resource exposed to JavaScript fetch/XHR shims.
#[derive(Debug, Clone, PartialEq, Eq)]
pub struct FetchResource {
    /// JavaScript request string that should match this resource.
    pub request_url: String,
    /// Absolute final URL.
    pub url: String,
    /// HTTP status if available.
    pub status: u16,
    /// Decoded text response body.
    pub body: String,
    /// Controlled error to throw when security checks reject the request.
    pub error: Option<String>,
}

/// One Web Storage key/value pair exposed to JavaScript.
#[derive(Debug, Clone, PartialEq, Eq)]
pub struct StorageEntry {
    /// Storage key.
    pub key: String,
    /// Storage value.
    pub value: String,
}

/// Storage area mutated by JavaScript.
#[derive(Debug, Clone, Copy, PartialEq, Eq)]
pub enum StorageArea {
    /// Persistent localStorage.
    Local,
    /// Per-tab sessionStorage.
    Session,
}

/// One JavaScript Web Storage mutation.
#[derive(Debug, Clone, PartialEq, Eq)]
pub enum StorageAction {
    /// `setItem(key, value)`.
    SetItem {
        /// Storage area.
        area: StorageArea,
        /// Storage key.
        key: String,
        /// Storage value.
        value: String,
    },
    /// `removeItem(key)`.
    RemoveItem {
        /// Storage area.
        area: StorageArea,
        /// Storage key.
        key: String,
    },
    /// `clear()`.
    Clear {
        /// Storage area.
        area: StorageArea,
    },
}

/// Result of JavaScript execution.
#[derive(Debug, Clone, PartialEq, Eq)]
pub struct ExecutionReport {
    /// Captured console and error diagnostics in deterministic order.
    pub diagnostics: Vec<String>,
    /// Registered DOM event handlers in deterministic registration order.
    pub event_handlers: Vec<EventHandler>,
    /// Browser API requests made by JavaScript.
    pub browser_actions: Vec<BrowserAction>,
    /// Web Storage mutations requested by JavaScript.
    pub storage_actions: Vec<StorageAction>,
    /// Pipeline stages dirtied by DOM mutations during execution.
    pub dirty: DirtyState,
}

/// DOM event dispatch request.
#[derive(Debug, Clone, PartialEq, Eq)]
pub struct EventDispatch {
    /// Event type to dispatch.
    pub event_type: String,
    /// Target DOM node id.
    pub target_node_id: NodeId,
}

/// Result of dispatching one DOM event.
#[derive(Debug, Clone, PartialEq, Eq)]
pub struct EventDispatchReport {
    /// Captured console/error diagnostics in deterministic order.
    pub diagnostics: Vec<String>,
    /// Whether a handler called `preventDefault()`.
    pub default_prevented: bool,
    /// Browser API requests made by event handlers.
    pub browser_actions: Vec<BrowserAction>,
    /// Web Storage mutations requested by event handlers.
    pub storage_actions: Vec<StorageAction>,
    /// Pipeline stages dirtied by event handler DOM mutations.
    pub dirty: DirtyState,
}

/// Why the script at position `index` is skipped, if it is: past the
/// script count limit, or longer in UTF-8 bytes than the byte limit.
pub open spec fn admission_of(index: nat, label: Seq<char>, code: Seq<char>, options: ExecutionOptions) -> Option<Seq<char>> {
    let bytes = vstd::utf8::encode_utf8(code).len() as usize;
    if index >= options.max_scripts {
        Some(
            "JavaScript skipped "@ + label + ": script count limit "@ + crate::text::decimal(
                options.max_scripts as nat,
            ) + " reached"@,
        )
    } else if bytes > options.max_script_bytes {
        Some(
            "JavaScript skipped "@ + label + ": script is "@ + crate::text::decimal(bytes as nat)
                + " bytes, limit is "@ + crate::text::decimal(options.max_script_bytes as nat)
                + " bytes"@,
        )
    } else {
        None
    }
}

/// Whether the script at position `index` may run: `None`, or the
/// diagnostic of why it is skipped.
pub fn script_admission(index: usize, script: &ScriptSource, options: ExecutionOptions) -> (r: Option<String>)
    ensures
        crate::extract::opt_text(r) == admission_of(index as nat, script.label@, script.code@, options),
{
    let bytes = script.code.as_str().len();
    if index >= options.max_scripts {
        let mut m = crate::text::string_from("JavaScript skipped ");
        crate::text::push_str(&mut m, script.label.as_str());
        crate::text::push_str(&mut m, ": script count limit ");
        crate::text::push_str(&mut m, crate::text::decimal_string(options.max_scripts as u64).as_str());
        crate::text::push_str(&mut m, " reached");
        Some(m)
    } else if bytes > options.max_script_bytes {
        let mut m = crate::text::string_from("JavaScript skipped ");
        crate::text::push_str(&mut m, script.label.as_str());
        crate::text::push_str(&mut m, ": script is ");
        crate::text::push_str(&mut m, crate::text::decimal_string(bytes as u64).as_str());
        crate::text::push_str(&mut m, " bytes, limit is ");
        crate::text::push_str(&mut m, crate::text::decimal_string(options.max_script_bytes as u64).as_str());
        crate::text::push_str(&mut m, " bytes");
        Some(m)
    } else {
        None
    }
}

impl ExecutionReport {
    /// The report of a run with JavaScript disabled: one diagnostic when
    /// there was something to run, nothing else.
    pub fn disabled(anything_to_run: bool) -> (r: Self)
        ensures
            string_views(r.diagnostics@) == (if anything_to_run {
                seq!["JavaScript disabled by configuration"@]
            } else {
                Seq::<Seq<char>>::empty()
            }),
            r.event_handlers@.len() == 0,
            r.browser_actions@.len() == 0,
            r.storage_actions@.len() == 0,
            r.dirty == dirty_none(),
    {
        let mut diagnostics: Vec<String> = Vec::new();
        if anything_to_run {
            diagnostics.push(crate::text::string_from("JavaScript disabled by configuration"));
        }
        proof {
            if anything_to_run {
                assert(string_views(diagnostics@) =~= seq!["JavaScript disabled by configuration"@]);
            } else {
                assert(string_views(diagnostics@) =~= Seq::<Seq<char>>::empty());
            }
        }
        ExecutionReport {
            diagnostics,
            event_handlers: Vec::new(),
            browser_actions: Vec::new(),
            storage_actions: Vec::new(),
            dirty: DirtyState { dom: false, style: false, layout: false, render: false },
        }
    }
}

/// The value of an escaped character in a string literal.
pub open spec fn unescape(c: char) -> char {
    if c == 'n' {
        '\n'
    } else if c == 'r' {
        '\r'
    } else if c == 't' {
        '\t'
    } else {
        c
    }
}

/// The rest of a string literal delimited by `q`, read from `s[i..]`
/// (`esc`: the previous character was a backslash): the text up to the
/// closing quote, or `None` if the literal does not end.
pub open spec fn literal_from(s: Seq<char>, q: char, i: int, esc: bool) -> Option<Seq<char>>
    decreases s.len() - i,
{
    if i < 0 || i >= s.len() {
        None
    } else if esc {
        match literal_from(s, q, i + 1, false) {
            Some(r) => Some(seq![unescape(s[i])] + r),
            None => None,
        }
    } else if s[i] == '\\' {
        literal_from(s, q, i + 1, true)
    } else if s[i] == q {
        Some(Seq::empty())
    } else {
        match literal_from(s, q, i + 1, false) {
            Some(r) => Some(seq![s[i]] + r),
            None => None,
        }
    }
}

/// The JavaScript string literal at the start of `s`, if it is one.
pub open spec fn js_string_literal(s: Seq<char>) -> Option<Seq<char>> {
    if s.len() > 0 && (s[0] == '\'' || s[0] == '"') {
        literal_from(s, s[0], 1, false)
    } else {
        None
    }
}

/// Reads the JavaScript string literal at the start of `v`.
fn read_js_string_literal(v: &Vec<char>) -> (r: Option<Vec<char>>)
    ensures
        match r {
            Some(t) => js_string_literal(v@) == Some(t@),
            None => js_string_literal(v@) is None,
        },
{
    if v.len() == 0 {
        return None;
    }
    let quote = v[0];
    if quote != '\'' && quote != '"' {
        return None;
    }
    let mut output: Vec<char> = Vec::new();
    let mut escaped = false;
    let mut i: usize = 1;
    while i < v.len()
        invariant
            1 <= i <= v@.len(),
            quote == v@[0],
            quote == '\'' || quote == '"',
            literal_from(v@, quote, 1, false) == match literal_from(v@, quote, i as int, escaped) {
                Some(r) => Some(output@ + r),
                None => None,
            },
        decreases v@.len() - i,
    {
        let c = v[i];
        let ghost before = output@;
        if escaped {
            let e = if c == 'n' {
                '\n'
            } else if c == 'r' {
                '\r'
            } else if c == 't' {
                '\t'
            } else {
                c
            };
            output.push(e);
            escaped = false;
            proof {
                match literal_from(v@, quote, i + 1, false) {
                    Some(r) => {
                        assert(output@ + r =~= before + (seq![e] + r));
                    },
                    None => {},
                }
            }
        } else if c == '\\' {
            escaped = true;
        } else if c == quote {
            proof {
                assert(v@[i as int] == quote);
                assert(literal_from(v@, quote, i as int, escaped) == Some(Seq::<char>::empty()));
                assert(output@ + Seq::<char>::empty() =~= output@);
                assert(js_string_literal(v@) == literal_from(v@, quote, 1, false));
            }
            return Some(output);
        } else {
            output.push(c);
            proof {
                match literal_from(v@, quote, i + 1, false) {
                    Some(r) => {
                        assert(output@ + r =~= before + (seq![c] + r));
                    },
                    None => {},
                }
            }
        }
        i += 1;
    }
    None
}

/// First index at or after `i` that is not whitespace.
pub open spec fn skip_leading_ws(s: Seq<char>, i: int) -> int {
    crate::text::skip_ws(s, i, s.len() as int)
}

/// The start of argument `k` (0-based) of a call whose arguments begin at
/// `s[i..]`: leading whitespace skipped, and for each later argument the
/// text after the next comma, whitespace skipped.
pub open spec fn argument_start(s: Seq<char>, i: int, k: nat) -> Option<int>
    decreases k,
{
    if k == 0 {
        Some(skip_leading_ws(s, i))
    } else {
        match argument_start(s, i, (k - 1) as nat) {
            Some(a) => match crate::text::find_char_from(s, ',', a) {
                Some(c) => Some(skip_leading_ws(s, c + 1)),
                None => None,
            },
            None => None,
        }
    }
}

/// The string literal that starts argument `k` of the call whose arguments
/// begin at `s[i..]`.
pub open spec fn static_argument(s: Seq<char>, i: int, k: nat) -> Option<Seq<char>> {
    match argument_start(s, i, k) {
        Some(a) => js_string_literal(s.subrange(a, s.len() as int)),
        None => None,
    }
}

/// Bounds of `argument_start`.
pub proof fn lemma_argument_start(s: Seq<char>, i: int, k: nat)
    requires
        0 <= i <= s.len(),
    ensures
        argument_start(s, i, k) matches Some(a) ==> i <= a <= s.len(),
    decreases k,
{
    crate::text::lemma_skip_ws(s, i, s.len() as int);
    if k > 0 {
        lemma_argument_start(s, i, (k - 1) as nat);
        match argument_start(s, i, (k - 1) as nat) {
            Some(a) => {
                crate::text::lemma_find_char(s, ',', a);
                match crate::text::find_char_from(s, ',', a) {
                    Some(c) => {
                        crate::text::lemma_skip_ws(s, c + 1, s.len() as int);
                    },
                    None => {},
                }
            },
            None => {},
        }
    }
}

/// `static_argument` computed.
fn static_string_argument(v: &Vec<char>, i: usize, k: usize) -> (r: Option<Vec<char>>)
    requires
        i <= v.len(),
    ensures
        match r {
            Some(t) => static_argument(v@, i as int, k as nat) == Some(t@),
            None => static_argument(v@, i as int, k as nat) is None,
        },
{
    let mut a = crate::text::skip_ws_exec(v, i, v.len());
    let mut index: usize = 0;
    while index < k
        invariant
            index <= k,
            i <= a <= v@.len(),
            argument_start(v@, i as int, index as nat) == Some(a as int),
        decreases k - index,
    {
        match crate::text::find_char_exec(v, ',', a) {
            Some(c) => {
                proof {
                    crate::text::lemma_find_char(v@, ',', a as int);
                }
                a = crate::text::skip_ws_exec(v, c + 1, v.len());
            },
            None => {
                proof {
                    lemma_argument_start(v@, i as int, (index + 1) as nat);
                    assert forall|j: nat| index + 1 <= j <= k implies argument_start(
                        v@,
                        i as int,
                        j,
                    ) is None by {
                        lemma_none_stays(v@, i as int, (index + 1) as nat, j);
                    }
                }
                return None;
            },
        }
        index += 1;
    }
    let rest = crate::text::slice_of(v, a, v.len());
    read_js_string_literal(&rest)
}

/// Once an argument is missing, every later one is too.
proof fn lemma_none_stays(s: Seq<char>, i: int, k: nat, j: nat)
    requires
        argument_start(s, i, k) is None,
        k <= j,
    ensures
        argument_start(s, i, j) is None,
    decreases j - k,
{
    if k < j {
        lemma_none_stays(s, i, k, (j - 1) as nat);
    }
}

/// Positions of the call needles that the scan of `s[i..]` visits: each
/// occurrence found from the current position, after which the scan resumes
/// one character past the end of the needle.
pub open spec fn call_sites_from(s: Seq<char>, needle: Seq<char>, i: int) -> Seq<int>
    decreases s.len() + 1 - i,
{
    if needle.len() == 0 || i < 0 || i > s.len() {
        Seq::empty()
    } else {
        match find_from(s, needle, i) {
            Some(p) => if i < p + needle.len() + 1 <= s.len() + 1 {
                seq![p] + call_sites_from(s, needle, p + needle.len() + 1)
            } else {
                Seq::empty()
            },
            None => Seq::empty(),
        }
    }
}

/// Whether resuming after each visited call site is at a character
/// boundary of the UTF-8 text: the character after the needle, if any,
/// is ASCII.
pub open spec fn call_sites_resumable(s: Seq<char>, needle: Seq<char>) -> bool {
    forall|k: int|
        0 <= k < call_sites_from(s, needle, 0).len() ==> {
            let e = #[trigger] call_sites_from(s, needle, 0)[k] + needle.len();
            e < s.len() ==> crate::text::char_utf8_len(s[e]) == 1
        }
}

/// The string literals passed as argument `k` at the visited call sites of
/// `name(` in `s`, in order.
pub open spec fn call_string_arguments(s: Seq<char>, name: Seq<char>, k: nat) -> Seq<Seq<char>> {
    let needle = name + "("@;
    let sites = call_sites_from(s, needle, 0);
    gather_some(Seq::new(sites.len(), |j: int| static_argument(s, sites[j] + needle.len(), k)))
}

/// The present values of `s`, in order.
pub open spec fn gather_some(s: Seq<Option<Seq<char>>>) -> Seq<Seq<char>>
    decreases s.len(),
{
    if s.len() == 0 {
        Seq::empty()
    } else {
        let r = gather_some(s.drop_last());
        match s.last() {
            Some(a) => r.push(a),
            None => r,
        }
    }
}

/// Whether every script can be scanned: see [`call_sites_resumable`].
pub open spec fn scripts_scannable(scripts: Seq<ScriptSource>) -> bool {
    forall|j: int|
        0 <= j < scripts.len() ==> call_sites_resumable(#[trigger] scripts[j].code@, "fetch("@)
            && call_sites_resumable(scripts[j].code@, "open("@)
}

/// Every static request URL of the scripts: the first argument of each
/// `fetch(` call and the second of each `open(` call that is a string
/// literal.
pub open spec fn static_request_urls(scripts: Seq<ScriptSource>) -> Set<Seq<char>> {
    Set::new(
        |u: Seq<char>|
            exists|j: int|
                0 <= j < scripts.len() && (call_string_arguments(
                    #[trigger] scripts[j].code@,
                    "fetch"@,
                    0,
                ).contains(u) || call_string_arguments(scripts[j].code@, "open"@, 1).contains(u)),
    )
}

/// Whether `s` is strictly increasing in code-point order.
pub open spec fn strictly_sorted(s: Seq<Seq<char>>) -> bool {
    forall|a: int, b: int| 0 <= a < b < s.len() ==> text_lt(#[trigger] s[a], #[trigger] s[b])
}

/// Views of a vector of strings.
pub open spec fn string_views(v: Seq<String>) -> Seq<Seq<char>> {
    Seq::new(v.len(), |i: int| v[i]@)
}

/// Inserts `u` into the strictly sorted `set`, unless it is there.
fn sorted_insert(set: &mut Vec<String>, u: Vec<char>)
    requires
        strictly_sorted(string_views(old(set)@)),
    ensures
        strictly_sorted(string_views(final(set)@)),
        string_views(final(set)@).to_set() == string_views(old(set)@).to_set().insert(u@),
{
    let ghost old_views = string_views(set@);
    let mut i: usize = 0;
    while i < set.len()
        invariant
            i <= set@.len(),
            string_views(set@) == old_views,
            strictly_sorted(old_views),
            forall|a: int| 0 <= a < i ==> text_lt(#[trigger] old_views[a], u@),
        ensures
            i <= set@.len(),
            string_views(set@) == old_views,
            forall|a: int| 0 <= a < i ==> text_lt(#[trigger] old_views[a], u@),
            i < set@.len() ==> text_lt(u@, old_views[i as int]),
        decreases set@.len() - i,
    {
        let w = chars_of(set[i].as_str());
        if crate::text::vec_eq(&w, &u) {
            proof {
                assert(old_views[i as int] == u@);
                assert(old_views.to_set().insert(u@) =~= old_views.to_set());
            }
            return;
        }
        if crate::text::text_lt_exec(&u, &w) {
            proof {
                assert(old_views[i as int] == w@);
            }
            break;
        }
        proof {
            assert(old_views[i as int] == w@);
            crate::text::lemma_text_lt_total(u@, w@);
        }
        i += 1;
    }
    let s = crate::text::string_of(&u);
    set.insert(i, s);
    proof {
        let nv = string_views(set@);
        assert(nv =~= old_views.insert(i as int, u@));
        assert forall|b: int| i <= b < old_views.len() implies text_lt(u@, #[trigger] old_views[b]) by {
            if b > i {
                crate::text::lemma_text_lt_transitive(u@, old_views[i as int], old_views[b]);
            }
        }
        assert forall|a: int, b: int| 0 <= a < b < nv.len() implies text_lt(
            #[trigger] nv[a],
            #[trigger] nv[b],
        ) by {
            if b < i {
            } else if a < i && b == i {
            } else if a < i && b > i {
                assert(nv[b] == old_views[b - 1]);
                crate::text::lemma_text_lt_transitive(nv[a], u@, nv[b]);
            } else if a == i {
                assert(nv[b] == old_views[b - 1]);
            } else {
            }
        }
        assert(nv.to_set() =~= old_views.to_set().insert(u@)) by {
            assert forall|x: Seq<char>| nv.to_set().contains(x) implies old_views.to_set().insert(
                u@,
            ).contains(x) by {
                let k = choose|k: int| 0 <= k < nv.len() && nv[k] == x;
                if k < i {
                    assert(old_views[k] == x);
                } else if k > i {
                    assert(old_views[k - 1] == x);
                }
            }
            assert forall|x: Seq<char>| old_views.to_set().insert(u@).contains(x) implies nv.to_set().contains(
                x,
            ) by {
                if x == u@ {
                    assert(nv[i as int] == x);
                } else {
                    let k = choose|k: int| 0 <= k < old_views.len() && old_views[k] == x;
                    if k < i {
                        assert(nv[k] == x);
                    } else {
                        assert(nv[k + 1] == x);
                    }
                }
            }
        }
    }
}


/// Adds to `set` the string literal passed as argument `k` at each visited
/// call site of `name(` in `code`.
fn collect_call_string_arguments(code: &str, name: &str, k: usize, set: &mut Vec<String>)
    requires
        strictly_sorted(string_views(old(set)@)),
        call_sites_resumable(code@, name@ + "("@),
    ensures
        strictly_sorted(string_views(final(set)@)),
        string_views(final(set)@).to_set() == string_views(old(set)@).to_set().union(
            call_string_arguments(code@, name@, k as nat).to_set(),
        ),
{
    let v = chars_of(code);
    let mut needle = chars_of(name);
    needle.push('(');
    let ghost nd = name@ + "("@;
    proof {
        reveal_strlit("(");
        assert(needle@ =~= nd);
    }
    let ghost sites = call_sites_from(v@, nd, 0);
    let ghost args = Seq::new(
        sites.len(),
        |j: int| static_argument(v@, sites[j] + nd.len(), k as nat),
    );
    let ghost base = string_views(set@).to_set();
    let mut rest: usize = 0;
    let ghost mut done: int = 0;
    proof {
        assert(args.take(0) =~= Seq::<Option<Seq<char>>>::empty());
        assert(gather_some(args.take(0)).to_set() =~= Set::<Seq<char>>::empty());
        assert(base.union(Set::empty()) =~= base);
        assert(sites.skip(0) =~= sites);
    }
    loop
        invariant_except_break
            v@ == code@,
            needle@ == nd,
            nd.len() > 0,
            sites == call_sites_from(v@, nd, 0),
            args.len() == sites.len(),
            forall|j: int| 0 <= j < sites.len() ==> #[trigger] args[j] == static_argument(v@, sites[j] + nd.len(), k as nat),
            0 <= done <= sites.len(),
            sites.skip(done) == call_sites_from(v@, nd, rest as int),
            call_sites_resumable(v@, nd),
            strictly_sorted(string_views(set@)),
            string_views(set@).to_set() == base.union(gather_some(args.take(done)).to_set()),
            rest <= v@.len(),
        ensures
            done == sites.len(),
            args.len() == sites.len(),
            strictly_sorted(string_views(set@)),
            string_views(set@).to_set() == base.union(gather_some(args.take(done)).to_set()),
        decreases v@.len() + 1 - rest,
    {
        let found = crate::text::find_exec(&v, &needle, rest);
        match found {
            None => {
                proof {
                    assert(call_sites_from(v@, nd, rest as int) =~= Seq::<int>::empty());
                    assert(sites.skip(done).len() == 0);
                }
                break;
            },
            Some(p) => {
                proof {
                    crate::text::lemma_find_from(v@, nd, rest as int);
                    assert(p + nd.len() <= v@.len());
                    assert(call_sites_from(v@, nd, rest as int) == seq![p as int] + call_sites_from(
                        v@,
                        nd,
                        p + nd.len() + 1,
                    ));
                    assert(sites.skip(done)[0] == p as int);
                    assert(sites[done] == p as int);
                    assert(sites.skip(done + 1) =~= sites.skip(done).drop_first());
                    assert(args.take(done + 1).drop_last() =~= args.take(done));
                }
                let vlen = v.len();
                assert(p + needle.len() <= vlen);
                let after = p + needle.len();
                let arg = static_string_argument(&v, after, k);
                match arg {
                    Some(t) => {
                        sorted_insert(set, t);
                    },
                    None => {},
                }
                proof {
                    assert(args[done] == static_argument(v@, p + nd.len(), k as nat));
                    let g = gather_some(args.take(done + 1));
                    match args[done] {
                        Some(a) => {
                            assert(g == gather_some(args.take(done)).push(a));
                            gather_some(args.take(done)).lemma_push_to_set_commute(a);
                        },
                        None => {
                            assert(g == gather_some(args.take(done)));
                        },
                    }
                    assert(string_views(set@).to_set() =~= base.union(g.to_set()));
                    done = done + 1;
                }
                if after >= v.len() {
                    proof {
                        assert(call_sites_from(v@, nd, after + 1) =~= Seq::<int>::empty());
                        assert(sites.skip(done).len() == 0);
                    }
                    break;
                }
                rest = after + 1;
            },
        }
    }
    proof {
        assert(args.take(done) =~= args);
    }
}

/// Two strictly increasing lists of texts with the same members are equal.
proof fn lemma_sorted_same_members(a: Seq<Seq<char>>, b: Seq<Seq<char>>)
    requires
        strictly_sorted(a),
        strictly_sorted(b),
        a.to_set() == b.to_set(),
    ensures
        a == b,
    decreases a.len(),
{
    if a.len() == 0 {
        if b.len() > 0 {
            assert(b.to_set().contains(b[0]));
        }
        assert(a =~= b);
    } else {
        assert(a.to_set().contains(a[0]));
        if b.len() == 0 {
            assert(false);
        }
        assert(b.to_set().contains(b[0]));
        let k = choose|k: int| 0 <= k < b.len() && b[k] == a[0];
        let m = choose|m: int| 0 <= m < a.len() && a[m] == b[0];
        if k > 0 {
            assert(text_lt(b[0], b[k]));
            if m == 0 {
                crate::text::lemma_text_lt_irreflexive(a[0]);
            } else {
                assert(text_lt(a[0], a[m]));
                crate::text::lemma_text_lt_asymmetric(a[0], a[m]);
            }
        }
        assert(a[0] == b[0]);
        let a1 = a.drop_first();
        let b1 = b.drop_first();
        assert forall|x: Seq<char>| a1.to_set().contains(x) implies b1.to_set().contains(x) by {
            let i = choose|i: int| 0 <= i < a1.len() && a1[i] == x;
            assert(a[i + 1] == x);
            assert(text_lt(a[0], a[i + 1]));
            assert(b.to_set().contains(x));
            let j = choose|j: int| 0 <= j < b.len() && b[j] == x;
            if j == 0 {
                crate::text::lemma_text_lt_irreflexive(a[0]);
            }
            assert(b1[j - 1] == x);
        }
        assert forall|x: Seq<char>| b1.to_set().contains(x) implies a1.to_set().contains(x) by {
            let j = choose|j: int| 0 <= j < b1.len() && b1[j] == x;
            assert(b[j + 1] == x);
            assert(text_lt(b[0], b[j + 1]));
            assert(a.to_set().contains(x));
            let i = choose|i: int| 0 <= i < a.len() && a[i] == x;
            if i == 0 {
                crate::text::lemma_text_lt_irreflexive(b[0]);
            }
            assert(a1[i - 1] == x);
        }
        assert(a1.to_set() =~= b1.to_set());
        lemma_sorted_same_members(a1, b1);
        assert(a =~= seq![a[0]] + a1);
        assert(b =~= seq![b[0]] + b1);
    }
}

/// The static request URLs do not depend on the order of the scripts (nor
/// on repeats): two lists with the same scripts give the same sorted list.
pub proof fn lemma_request_urls_ignore_order(
    a: Seq<ScriptSource>,
    b: Seq<ScriptSource>,
    ra: Seq<Seq<char>>,
    rb: Seq<Seq<char>>,
)
    requires
        forall|x: ScriptSource| a.contains(x) <==> b.contains(x),
        strictly_sorted(ra),
        ra.to_set() == static_request_urls(a),
        strictly_sorted(rb),
        rb.to_set() == static_request_urls(b),
    ensures
        ra == rb,
{
    assert forall|u: Seq<char>| static_request_urls(a).contains(u) implies static_request_urls(b).contains(u) by {
        let j = choose|j: int|
            0 <= j < a.len() && (call_string_arguments(#[trigger] a[j].code@, "fetch"@, 0).contains(u)
                || call_string_arguments(a[j].code@, "open"@, 1).contains(u));
        assert(a.contains(a[j]));
        let k = choose|k: int| 0 <= k < b.len() && b[k] == a[j];
        assert(b[k].code@ == a[j].code@);
    }
    assert forall|u: Seq<char>| static_request_urls(b).contains(u) implies static_request_urls(a).contains(u) by {
        let j = choose|j: int|
            0 <= j < b.len() && (call_string_arguments(#[trigger] b[j].code@, "fetch"@, 0).contains(u)
                || call_string_arguments(b[j].code@, "open"@, 1).contains(u));
        assert(b.contains(b[j]));
        let k = choose|k: int| 0 <= k < a.len() && a[k] == b[j];
        assert(a[k].code@ == b[j].code@);
    }
    assert(static_request_urls(a) =~= static_request_urls(b));
    lemma_sorted_same_members(ra, rb);
}

/// Extracts static string URLs used by the fetch/XHR shims: the first
/// argument of each `fetch(` call and the second of each `open(` call that
/// is a string literal, sorted and without repeats.
pub fn collect_static_request_urls(scripts: &[ScriptSource]) -> (r: Vec<String>)
    requires
        scripts_scannable(scripts@),
    ensures
        strictly_sorted(string_views(r@)),
        string_views(r@).to_set() == static_request_urls(scripts@),
{
    let mut urls: Vec<String> = Vec::new();
    let mut j: usize = 0;
    proof {
        assert(string_views(urls@).to_set() =~= Set::<Seq<char>>::empty());
    }
    while j < scripts.len()
        invariant
            j <= scripts@.len(),
            scripts_scannable(scripts@),
            strictly_sorted(string_views(urls@)),
            string_views(urls@).to_set() == Set::new(
                |u: Seq<char>|
                    exists|q: int|
                        0 <= q < j && (call_string_arguments(
                            #[trigger] scripts@[q].code@,
                            "fetch"@,
                            0,
                        ).contains(u) || call_string_arguments(scripts@[q].code@, "open"@, 1).contains(u)),
            ),
        decreases scripts@.len() - j,
    {
        let ghost before = string_views(urls@).to_set();
        let code = scripts[j].code.as_str();
        proof {
            assert(call_sites_resumable(scripts@[j as int].code@, "fetch"@ + "("@)) by {
                reveal_strlit("fetch");
                reveal_strlit("fetch(");
                reveal_strlit("(");
                assert("fetch"@ + "("@ =~= "fetch("@);
            }
            assert(call_sites_resumable(scripts@[j as int].code@, "open"@ + "("@)) by {
                reveal_strlit("open");
                reveal_strlit("open(");
                reveal_strlit("(");
                assert("open"@ + "("@ =~= "open("@);
            }
        }
        collect_call_string_arguments(code, "fetch", 0, &mut urls);
        collect_call_string_arguments(code, "open", 1, &mut urls);
        proof {
            let f = call_string_arguments(scripts@[j as int].code@, "fetch"@, 0);
            let o = call_string_arguments(scripts@[j as int].code@, "open"@, 1);
            let want = Set::new(
                |u: Seq<char>|
                    exists|q: int|
                        0 <= q < j + 1 && (call_string_arguments(
                            #[trigger] scripts@[q].code@,
                            "fetch"@,
                            0,
                        ).contains(u) || call_string_arguments(scripts@[q].code@, "open"@, 1).contains(u)),
            );
            assert(string_views(urls@).to_set() =~= want) by {
                assert forall|u: Seq<char>| want.contains(u) implies string_views(urls@).to_set().contains(u) by {
                    let q = choose|q: int|
                        0 <= q < j + 1 && (call_string_arguments(
                            #[trigger] scripts@[q].code@,
                            "fetch"@,
                            0,
                        ).contains(u) || call_string_arguments(scripts@[q].code@, "open"@, 1).contains(u));
                    if q == j {
                        if f.contains(u) {
                            let x = choose|x: int| 0 <= x < f.len() && f[x] == u;
                            assert(f.to_set().contains(u));
                        } else {
                            let x = choose|x: int| 0 <= x < o.len() && o[x] == u;
                            assert(o.to_set().contains(u));
                        }
                    } else {
                        assert(before.contains(u));
                    }
                }
                assert forall|u: Seq<char>| string_views(urls@).to_set().contains(u) implies want.contains(u) by {
                    if before.contains(u) {
                        let q = choose|q: int|
                            0 <= q < j && (call_string_arguments(
                                #[trigger] scripts@[q].code@,
                                "fetch"@,
                                0,
                            ).contains(u) || call_string_arguments(scripts@[q].code@, "open"@, 1).contains(u));
                        assert(0 <= q < j + 1);
                    } else if f.to_set().contains(u) {
                        assert(f.contains(u));
                    } else {
                        assert(o.to_set().contains(u));
                        assert(o.contains(u));
                    }
                }
            }
        }
        j += 1;
    }
    proof {
        assert(string_views(urls@).to_set() =~= static_request_urls(scripts@));
    }
    urls
}

/// `u64::from_str` on a node id.
pub open spec fn parse_u64(s: Seq<char>) -> Option<u64> {
    match crate::text::parse_decimal(s, u64::MAX as nat) {
        Some(n) => Some(n as u64),
        None => None,
    }
}

/// Parses a node id written in decimal.
pub fn parse_existing_id(id: &str) -> (r: Option<NodeId>)
    ensures
        r == parse_u64(id@),
{
    crate::text::parse_decimal_exec(&chars_of(id), u64::MAX)
}

/// A node as mirrored to scripts: its id as decimal text, its kind
/// (`document`, `element` or `text`), tag name, text, attributes and
/// children.
#[derive(Debug)]
pub struct MirrorNode {
    /// Node id as decimal text.
    pub id: String,
    /// Node kind name.
    pub kind: &'static str,
    /// Tag name of an element, else empty.
    pub tag_name: String,
    /// Text of a text node, else empty.
    pub text: String,
    /// Attributes of an element, else none.
    pub attributes: AttributeMap,
    /// Mirrored light children.
    pub children: Vec<MirrorNode>,
    /// Mirrored shadow children.
    pub shadow_children: Vec<MirrorNode>,
}

/// A mirrored node as plain values.
#[verifier::ext_equal]
pub struct MirrorModel {
    /// Id text.
    pub id: Seq<char>,
    /// Kind name.
    pub kind: Seq<char>,
    /// Tag name.
    pub tag_name: Seq<char>,
    /// Text.
    pub text: Seq<char>,
    /// Attribute pairs in key order.
    pub attributes: crate::dom::AttrPairs,
    /// Light children.
    pub children: Seq<MirrorModel>,
    /// Shadow children.
    pub shadow: Seq<MirrorModel>,
}

/// The placeholder mirror used out of range.
pub open spec fn empty_mirror() -> MirrorModel {
    MirrorModel {
        id: Seq::empty(),
        kind: Seq::empty(),
        tag_name: Seq::empty(),
        text: Seq::empty(),
        attributes: Seq::empty(),
        children: Seq::empty(),
        shadow: Seq::empty(),
    }
}

/// `m` as plain values.
pub open spec fn mirror_view(m: MirrorNode) -> MirrorModel
    decreases m,
{
    MirrorModel {
        id: m.id@,
        kind: m.kind@,
        tag_name: m.tag_name@,
        text: m.text@,
        attributes: m.attributes.pairs(),
        children: Seq::new(
            m.children@.len(),
            |i: int|
                if 0 <= i < m.children@.len() {
                    mirror_view(m.children@[i])
                } else {
                    empty_mirror()
                },
        ),
        shadow: Seq::new(
            m.shadow_children@.len(),
            |i: int|
                if 0 <= i < m.shadow_children@.len() {
                    mirror_view(m.shadow_children@[i])
                } else {
                    empty_mirror()
                },
        ),
    }
}

/// The mirror of a node: a document or element keeps its children; a text
/// node has none.
pub open spec fn mirror_of(n: NodeModel) -> MirrorModel
    decreases n,
{
    let kids = Seq::new(
        n.children.len(),
        |i: int|
            if 0 <= i < n.children.len() {
                mirror_of(n.children[i])
            } else {
                empty_mirror()
            },
    );
    let shadow = Seq::new(
        n.shadow.len(),
        |i: int|
            if 0 <= i < n.shadow.len() {
                mirror_of(n.shadow[i])
            } else {
                empty_mirror()
            },
    );
    match n.kind {
        KindModel::Document => MirrorModel {
            id: crate::text::decimal(n.id as nat),
            kind: "document"@,
            tag_name: Seq::empty(),
            text: Seq::empty(),
            attributes: Seq::empty(),
            children: kids,
            shadow,
        },
        KindModel::Element { tag, attrs } => MirrorModel {
            id: crate::text::decimal(n.id as nat),
            kind: "element"@,
            tag_name: tag,
            text: Seq::empty(),
            attributes: attrs,
            children: kids,
            shadow,
        },
        KindModel::Text(t) => MirrorModel {
            id: crate::text::decimal(n.id as nat),
            kind: "text"@,
            tag_name: Seq::empty(),
            text: t,
            attributes: Seq::empty(),
            children: Seq::empty(),
            shadow: Seq::empty(),
        },
    }
}

/// Views of mirrored nodes.
pub open spec fn mirror_views(s: Seq<MirrorNode>) -> Seq<MirrorModel> {
    Seq::new(s.len(), |i: int| mirror_view(s[i]))
}

/// Mirrors of node models.
pub open spec fn mirrors_of(s: Seq<NodeModel>) -> Seq<MirrorModel> {
    Seq::new(s.len(), |i: int| mirror_of(s[i]))
}

/// The children of a mirror view are the views of its child mirrors.
proof fn lemma_mirror_children(m: MirrorNode)
    ensures
        mirror_view(m).children == mirror_views(m.children@),
        mirror_view(m).shadow == mirror_views(m.shadow_children@),
{
    assert(mirror_view(m).children =~= mirror_views(m.children@));
    assert(mirror_view(m).shadow =~= mirror_views(m.shadow_children@));
}

/// Mirrors a node and its descendants for scripts.
pub fn mirror_node(node: &Node) -> (r: MirrorNode)
    ensures
        mirror_view(r) == mirror_of(node@),
    decreases node,
{
    proof {
        lemma_children_models(*node);
    }
    let id = crate::text::decimal_string(node.id);
    let r = match &node.kind {
        NodeKind::Document => MirrorNode {
            id,
            kind: "document",
            tag_name: String::new(),
            text: String::new(),
            attributes: AttributeMap::new(),
            children: mirror_nodes(&node.children),
            shadow_children: mirror_nodes(&node.shadow_children),
        },
        NodeKind::Element(element) => MirrorNode {
            id,
            kind: "element",
            tag_name: element.tag_name.clone(),
            text: String::new(),
            attributes: element.attributes.clone(),
            children: mirror_nodes(&node.children),
            shadow_children: mirror_nodes(&node.shadow_children),
        },
        NodeKind::Text(text) => MirrorNode {
            id,
            kind: "text",
            tag_name: String::new(),
            text: text.clone(),
            attributes: AttributeMap::new(),
            children: Vec::new(),
            shadow_children: Vec::new(),
        },
    };
    proof {
        lemma_mirror_children(r);
        reveal_strlit("document");
        reveal_strlit("element");
        reveal_strlit("text");
        let n = node@;
        assert(mirror_view(r).children =~= mirror_of(n).children);
        assert(mirror_view(r).shadow =~= mirror_of(n).shadow);
        assert(mirror_view(r) =~= mirror_of(n));
    }
    r
}

/// Mirrors of `nodes`.
fn mirror_nodes(nodes: &Vec<Node>) -> (r: Vec<MirrorNode>)
    ensures
        mirror_views(r@) == mirrors_of(models(nodes@)),
    decreases nodes@,
{
    let mut out: Vec<MirrorNode> = Vec::new();
    let mut i: usize = 0;
    while i < nodes.len()
        invariant
            i <= nodes@.len(),
            mirror_views(out@) =~= mirrors_of(models(nodes@)).take(i as int),
        decreases nodes@.len() - i,
    {
        assert(decreases_to!(nodes@ => nodes@[i as int]));
        let c = mirror_node(&nodes[i]);
        let ghost prev = out@;
        out.push(c);
        proof {
            assert(mirror_views(out@) =~= mirror_views(prev).push(mirror_view(c)));
            assert(mirrors_of(models(nodes@)).take(i + 1) =~= mirrors_of(models(nodes@)).take(
                i as int,
            ).push(mirror_of(node_model(nodes@[i as int]))));
        }
        i += 1;
    }
    proof {
        assert(mirrors_of(models(nodes@)).take(nodes@.len() as int) =~= mirrors_of(models(nodes@)));
    }
    out
}

/// One DOM mutation requested by a script.
#[derive(Debug, PartialEq, Eq)]
pub enum DomMutation {
    /// `document.createElement`.
    CreateElement { id: String, tag_name: String },
    /// `document.createTextNode`.
    CreateTextNode { id: String, text: String },
    /// `textContent = ...`.
    SetTextContent { id: String, text: String },
    /// `appendChild`.
    AppendChild { parent: String, child: String },
    /// `attachShadow`.
    AttachShadow { host: String, mode: String },
    /// `appendChild` on a shadow root.
    AppendShadowChild { host: String, child: String },
    /// `remove`.
    Remove { id: String },
    /// `setAttribute`.
    SetAttribute { id: String, name: String, value: String },
}

/// A mutation as plain values.
pub enum MutationModel {
    /// Create an element.
    CreateElement { id: Seq<char>, tag_name: Seq<char> },
    /// Create a text node.
    CreateTextNode { id: Seq<char>, text: Seq<char> },
    /// Replace text content.
    SetTextContent { id: Seq<char>, text: Seq<char> },
    /// Append a child.
    AppendChild { parent: Seq<char>, child: Seq<char> },
    /// Attach a shadow root.
    AttachShadow { host: Seq<char>, mode: Seq<char> },
    /// Append a shadow child.
    AppendShadowChild { host: Seq<char>, child: Seq<char> },
    /// Remove a node.
    Remove { id: Seq<char> },
    /// Set an attribute.
    SetAttribute { id: Seq<char>, name: Seq<char>, value: Seq<char> },
}

impl View for DomMutation {
    type V = MutationModel;

    open spec fn view(&self) -> MutationModel {
        match self {
            DomMutation::CreateElement { id, tag_name } => MutationModel::CreateElement {
                id: id@,
                tag_name: tag_name@,
            },
            DomMutation::CreateTextNode { id, text } => MutationModel::CreateTextNode {
                id: id@,
                text: text@,
            },
            DomMutation::SetTextContent { id, text } => MutationModel::SetTextContent {
                id: id@,
                text: text@,
            },
            DomMutation::AppendChild { parent, child } => MutationModel::AppendChild {
                parent: parent@,
                child: child@,
            },
            DomMutation::AttachShadow { host, mode } => MutationModel::AttachShadow {
                host: host@,
                mode: mode@,
            },
            DomMutation::AppendShadowChild { host, child } => MutationModel::AppendShadowChild {
                host: host@,
                child: child@,
            },
            DomMutation::Remove { id } => MutationModel::Remove { id: id@ },
            DomMutation::SetAttribute { id, name, value } => MutationModel::SetAttribute {
                id: id@,
                name: name@,
                value: value@,
            },
        }
    }
}

/// Index of the first entry with key `k` in `s[i..]`, or `-1`.
pub open spec fn key_index<V>(s: Seq<(Seq<char>, V)>, k: Seq<char>, i: int) -> int
    decreases s.len() - i,
{
    if i < 0 || i >= s.len() {
        -1
    } else if s[i].0 == k {
        i
    } else {
        key_index(s, k, i + 1)
    }
}

/// Bounds of `key_index`.
pub proof fn lemma_key_index<V>(s: Seq<(Seq<char>, V)>, k: Seq<char>, i: int)
    requires
        0 <= i,
    ensures
        key_index(s, k, i) == -1 || (i <= key_index(s, k, i) < s.len() && s[key_index(
            s,
            k,
            i,
        )].0 == k),
    decreases s.len() - i,
{
    if i < s.len() && s[i].0 != k {
        lemma_key_index(s, k, i + 1);
    }
}

/// `key_index` finds the first entry with key `k` from `j` on.
proof fn lemma_key_index_at<V>(t: Seq<(Seq<char>, V)>, k: Seq<char>, j: int, m: int)
    requires
        0 <= j <= m < t.len(),
        t[m].0 == k,
        forall|q: int| j <= q < m ==> (#[trigger] t[q]).0 != k,
    ensures
        key_index(t, k, j) == m,
    decreases m - j,
{
    if j < m {
        lemma_key_index_at(t, k, j + 1, m);
    }
}

/// No entry before the one `key_index` finds has key `k`; none at all
/// when it finds none.
proof fn lemma_key_index_first<V>(s: Seq<(Seq<char>, V)>, k: Seq<char>, j: int)
    requires
        0 <= j,
    ensures
        forall|q: int|
            j <= q < (if key_index(s, k, j) == -1 {
                s.len() as int
            } else {
                key_index(s, k, j)
            }) ==> (#[trigger] s[q]).0 != k,
    decreases s.len() - j,
{
    if j < s.len() && s[j].0 != k {
        lemma_key_index_first(s, k, j + 1);
    }
}

/// After storing `v` under `k`, `k` gives `v`.
pub proof fn lemma_kv_insert_get<V>(s: Seq<(Seq<char>, V)>, k: Seq<char>, v: V)
    ensures
        kv_get(kv_insert(s, k, v), k) == Some(v),
{
    lemma_key_index(s, k, 0);
    lemma_key_index_first(s, k, 0);
    let i = key_index(s, k, 0);
    let t = kv_insert(s, k, v);
    if i >= 0 {
        assert forall|q: int| 0 <= q < i implies (#[trigger] t[q]).0 != k by {
            assert(t[q] == s[q]);
        }
        lemma_key_index_at(t, k, 0, i);
    } else {
        assert forall|q: int| 0 <= q < s.len() implies (#[trigger] t[q]).0 != k by {
            assert(t[q] == s[q]);
        }
        lemma_key_index_at(t, k, 0, s.len() as int);
    }
}

/// The value under key `k`.
pub open spec fn kv_get<V>(s: Seq<(Seq<char>, V)>, k: Seq<char>) -> Option<V> {
    let i = key_index(s, k, 0);
    if i >= 0 {
        Some(s[i].1)
    } else {
        None
    }
}

/// `s` with `v` under key `k`, replacing an earlier value.
pub open spec fn kv_insert<V>(s: Seq<(Seq<char>, V)>, k: Seq<char>, v: V) -> Seq<(Seq<char>, V)> {
    let i = key_index(s, k, 0);
    if i >= 0 {
        s.update(i, (k, v))
    } else {
        s.push((k, v))
    }
}

/// `s` without key `k`.
pub open spec fn kv_remove<V>(s: Seq<(Seq<char>, V)>, k: Seq<char>) -> Seq<(Seq<char>, V)> {
    let i = key_index(s, k, 0);
    if i >= 0 {
        s.remove(i)
    } else {
        s
    }
}

/// Nodes created by scripts but not attached yet, keyed by script id.
pub open spec fn created_model(v: Seq<(String, Node)>) -> Seq<(Seq<char>, NodeModel)> {
    Seq::new(v.len(), |i: int| (v[i].0@, v[i].1@))
}

/// Script ids of attached nodes.
pub open spec fn aliases_model(v: Seq<(String, NodeId)>) -> Seq<(Seq<char>, u64)> {
    Seq::new(v.len(), |i: int| (v[i].0@, v[i].1))
}

/// Scratch state of one batch of mutations: nodes created by scripts and
/// not yet attached, and the node ids of attached ones.
pub struct MutationScratch {
    created: Vec<(String, Node)>,
    aliases: Vec<(String, NodeId)>,
}

impl MutationScratch {
    /// Created, not yet attached nodes.
    pub closed spec fn created(&self) -> Seq<(Seq<char>, NodeModel)> {
        created_model(self.created@)
    }

    /// Script ids of attached nodes.
    pub closed spec fn aliases(&self) -> Seq<(Seq<char>, u64)> {
        aliases_model(self.aliases@)
    }

    /// An empty scratch state.
    pub fn new() -> (r: Self)
        ensures
            r.created() == Seq::<(Seq<char>, NodeModel)>::empty(),
            r.aliases() == Seq::<(Seq<char>, u64)>::empty(),
    {
        let r = MutationScratch { created: Vec::new(), aliases: Vec::new() };
        proof {
            assert(r.created() =~= Seq::<(Seq<char>, NodeModel)>::empty());
            assert(r.aliases() =~= Seq::<(Seq<char>, u64)>::empty());
        }
        r
    }

    fn created_index(&self, key: &str) -> (r: Option<usize>)
        ensures
            match r {
                Some(i) => key_index(self.created(), key@, 0) == i as int && i < self.created@.len(),
                None => key_index(self.created(), key@, 0) == -1,
            },
    {
        let k = chars_of(key);
        let mut i: usize = 0;
        while i < self.created.len()
            invariant
                i <= self.created@.len(),
                key_index(self.created(), key@, i as int) == key_index(self.created(), key@, 0),
                k@ == key@,
            decreases self.created@.len() - i,
        {
            let w = chars_of(self.created[i].0.as_str());
            if crate::text::vec_eq(&w, &k) {
                proof {
                    assert(self.created()[i as int].0 == key@);
                }
                return Some(i);
            }
            i += 1;
        }
        None
    }

    fn alias_index(&self, key: &str) -> (r: Option<usize>)
        ensures
            match r {
                Some(i) => key_index(self.aliases(), key@, 0) == i as int && i < self.aliases@.len(),
                None => key_index(self.aliases(), key@, 0) == -1,
            },
    {
        let k = chars_of(key);
        let mut i: usize = 0;
        while i < self.aliases.len()
            invariant
                i <= self.aliases@.len(),
                key_index(self.aliases(), key@, i as int) == key_index(self.aliases(), key@, 0),
                k@ == key@,
            decreases self.aliases@.len() - i,
        {
            let w = chars_of(self.aliases[i].0.as_str());
            if crate::text::vec_eq(&w, &k) {
                proof {
                    assert(self.aliases()[i as int].0 == key@);
                }
                return Some(i);
            }
            i += 1;
        }
        None
    }

    /// Stores `node` under `key`.
    fn insert_created(&mut self, key: &str, node: Node)
        ensures
            final(self).created() == kv_insert(old(self).created(), key@, node@),
            final(self).aliases() == old(self).aliases(),
    {
        let k = crate::text::string_from(key);
        match self.created_index(key) {
            Some(i) => {
                let ghost before = self.created();
                let _ = self.created.remove(i);
                self.created.insert(i, (k, node));
                proof {
                    assert(self.created() =~= before.update(i as int, (key@, node@)));
                }
            },
            None => {
                let ghost before = self.created();
                self.created.push((k, node));
                proof {
                    assert(self.created() =~= before.push((key@, node@)));
                }
            },
        }
    }

    /// Takes the node stored under `key`.
    fn take_created(&mut self, key: &str) -> (r: Option<Node>)
        ensures
            match r {
                Some(n) => kv_get(old(self).created(), key@) == Some(n@),
                None => kv_get(old(self).created(), key@) is None,
            },
            final(self).created() == kv_remove(old(self).created(), key@),
            final(self).aliases() == old(self).aliases(),
    {
        match self.created_index(key) {
            Some(i) => {
                let ghost before = self.created();
                let (_, node) = self.created.remove(i);
                proof {
                    assert(self.created() =~= before.remove(i as int));
                }
                Some(node)
            },
            None => None,
        }
    }

    /// Records that script id `key` names node `id`.
    fn insert_alias(&mut self, key: &str, id: NodeId)
        ensures
            final(self).aliases() == kv_insert(old(self).aliases(), key@, id),
            final(self).created() == old(self).created(),
    {
        let k = crate::text::string_from(key);
        match self.alias_index(key) {
            Some(i) => {
                let ghost before = self.aliases();
                let _ = self.aliases.remove(i);
                self.aliases.insert(i, (k, id));
                proof {
                    assert(self.aliases() =~= before.update(i as int, (key@, id)));
                }
            },
            None => {
                let ghost before = self.aliases();
                self.aliases.push((k, id));
                proof {
                    assert(self.aliases() =~= before.push((key@, id)));
                }
            },
        }
    }

    /// Takes out the created node under `key` for an update in place.
    fn take_created_at(&mut self, key: &str) -> (r: Option<(usize, Node)>)
        ensures
            match r {
                Some((i, n)) => key_index(old(self).created(), key@, 0) == i as int && i
                    < old(self).created().len() && n@ == old(self).created()[i as int].1
                    && final(self).created() == old(self).created().remove(i as int),
                None => key_index(old(self).created(), key@, 0) == -1 && final(self).created()
                    == old(self).created(),
            },
            final(self).aliases() == old(self).aliases(),
    {
        match self.created_index(key) {
            Some(i) => {
                let ghost before = self.created();
                let (_, node) = self.created.remove(i);
                proof {
                    assert(self.created() =~= before.remove(i as int));
                }
                Some((i, node))
            },
            None => None,
        }
    }

    /// Puts a created node back at position `i`.
    fn put_created_at(&mut self, i: usize, key: &str, node: Node)
        requires
            i <= old(self).created().len(),
        ensures
            final(self).created() == old(self).created().insert(i as int, (key@, node@)),
            final(self).aliases() == old(self).aliases(),
    {
        let ghost before = self.created();
        let k = crate::text::string_from(key);
        self.created.insert(i, (k, node));
        proof {
            assert(self.created() =~= before.insert(i as int, (key@, node@)));
        }
    }

    /// The node id that script id `key` names: an alias, or the id itself
    /// read as a number.
    fn resolve(&self, key: &str) -> (r: Option<NodeId>)
        ensures
            r == resolve_id(self.aliases(), key@),
    {
        match self.alias_index(key) {
            Some(i) => Some(self.aliases[i].1),
            None => parse_existing_id(key),
        }
    }
}

/// The node id that script id `k` names: an alias, or `k` read as a number.
pub open spec fn resolve_id(aliases: Seq<(Seq<char>, u64)>, k: Seq<char>) -> Option<u64> {
    match kv_get(aliases, k) {
        Some(n) => Some(n),
        None => parse_u64(k),
    }
}

/// State of a batch of mutations as plain values.
pub struct MutState {
    /// The document tree.
    pub root: NodeModel,
    /// Created, not yet attached nodes.
    pub created: Seq<(Seq<char>, NodeModel)>,
    /// Script ids of attached nodes.
    pub aliases: Seq<(Seq<char>, u64)>,
    /// Next id for created nodes.
    pub next: u64,
}

/// Removal from a document: the root cannot be removed.
pub open spec fn doc_remove(root: NodeModel, id: u64) -> Option<(NodeModel, NodeModel)> {
    if id == root.id {
        None
    } else {
        crate::dom::remove(root, id)
    }
}

/// Takes the node that script id `k` names out of its place: a created node
/// leaves the scratch state, a document node leaves the tree.
pub open spec fn take_node(st: MutState, k: Seq<char>) -> (MutState, Option<NodeModel>) {
    match kv_get(st.created, k) {
        Some(n) => (MutState { created: kv_remove(st.created, k), ..st }, Some(n)),
        None => match resolve_id(st.aliases, k) {
            Some(id) => match doc_remove(st.root, id) {
                Some((r, n)) => (MutState { root: r, ..st }, Some(n)),
                None => (st, None),
            },
            None => (st, None),
        },
    }
}

/// Appending a node of the document to a document node moves it: the
/// node is taken out of its place, the parent, found by its id, then holds
/// it as its last child, no node is lost or copied (the document's ids,
/// counted with repetition, stay the same, so a document whose ids are
/// distinct still holds exactly one node with the child's id), the
/// child's key names the moved node's id, and the created nodes and the
/// next id stay as they were. This holds when the parent is still in the
/// document once the child is taken out (it is not inside the child) and
/// can hold children.
pub proof fn lemma_append_child_moves(
    st: MutState,
    parent: Seq<char>,
    child: Seq<char>,
    cid: u64,
    pid: u64,
)
    requires
        kv_get(st.created, child) is None,
        kv_get(st.created, parent) is None,
        resolve_id(st.aliases, child) == Some(cid),
        resolve_id(st.aliases, parent) == Some(pid),
        cid != st.root.id,
        crate::dom::find(st.root, cid) is Some,
        crate::dom::remove(st.root, cid) matches Some((r, n)) ==> (crate::dom::find(r, pid) matches Some(
            m,
        ) && crate::dom::hosts_children(m)),
    ensures
        crate::dom::remove(st.root, cid) is Some,
        ({
            let (s2, out) = mutation_step(st, MutationModel::AppendChild { parent, child });
            let (r, n) = crate::dom::remove(st.root, cid).unwrap();
            let m = crate::dom::find(r, pid).unwrap();
            &&& out == Ok::<DirtyState, Seq<char>>(dirty_all())
            &&& n.id == cid
            &&& s2.root == crate::dom::replace(r, pid, crate::dom::with_child(m, n))
            &&& crate::dom::find(s2.root, pid) == Some(crate::dom::with_child(m, n))
            &&& kv_get(s2.aliases, child) == Some(cid)
            &&& s2.created == st.created
            &&& s2.next == st.next
            &&& crate::dom::ids(s2.root) == crate::dom::ids(st.root)
            &&& crate::dom::preorder(st.root).no_duplicates() ==> crate::dom::ids(s2.root).count(cid) == 1
        }),
{
    broadcast use vstd::multiset::group_multiset_axioms;
    crate::dom::lemma_remove_succeeds_iff_held_below(st.root, cid);
    let (r, n) = crate::dom::remove(st.root, cid).unwrap();
    let m = crate::dom::find(r, pid).unwrap();
    crate::dom::lemma_find_id(r, pid);
    crate::dom::lemma_find_replace(r, pid, crate::dom::with_child(m, n));
    lemma_kv_insert_get(st.aliases, child, n.id);
    let wc = crate::dom::with_child(m, n);
    let after = crate::dom::replace(r, pid, wc);
    crate::dom::lemma_replace_ids(r, pid, wc);
    crate::dom::lemma_with_child_ids(m, n);
    crate::dom::lemma_remove_ids(st.root, cid);
    assert forall|v: u64| #[trigger] crate::dom::ids(after).count(v) == crate::dom::ids(st.root).count(v) by {
        assert(crate::dom::ids(after).add(crate::dom::ids(m)).count(v) == crate::dom::ids(r).add(
            crate::dom::ids(wc),
        ).count(v));
        assert(crate::dom::ids(wc).count(v) == crate::dom::ids(m).add(crate::dom::ids(n)).count(v));
        assert(crate::dom::ids(st.root).count(v) == crate::dom::ids(r).add(crate::dom::ids(n)).count(v));
    }
    assert(crate::dom::ids(after) =~= crate::dom::ids(st.root));
    if crate::dom::preorder(st.root).no_duplicates() {
        crate::dom::lemma_found_in_ids(st.root, cid);
        crate::dom::preorder(st.root).lemma_multiset_has_no_duplicates();
    }
}

/// The dirty stages of an attribute change.
pub open spec fn dirty_for_attribute(name: Seq<char>) -> DirtyState {
    let n = lower(name);
    if n == "class"@ || n == "id"@ || n == "style"@ {
        dirty_all()
    } else if n == "href"@ || n == "action"@ || n == "method"@ || n == "name"@ || n == "value"@
        || n == "type"@ || n == "placeholder"@ {
        dirty_dom_layout_render()
    } else {
        DirtyState { dom: true, style: false, layout: false, render: false }
    }
}

/// The effect of one mutation on the batch state, and its outcome: the
/// stages it dirties, or a diagnostic.
pub open spec fn mutation_step(st: MutState, op: MutationModel) -> (MutState, Result<
    DirtyState,
    Seq<char>,
>) {
    match op {
        MutationModel::CreateElement { id, tag_name } => {
            let node = NodeModel {
                id: st.next,
                kind: KindModel::Element { tag: lower(tag_name), attrs: Seq::empty() },
                children: Seq::empty(),
                shadow: Seq::empty(),
            };
            (
                MutState { created: kv_insert(st.created, id, node), next: sat_inc(st.next), ..st },
                Ok(dirty_none()),
            )
        },
        MutationModel::CreateTextNode { id, text } => {
            let node = crate::dom::text_model(st.next, text);
            (
                MutState { created: kv_insert(st.created, id, node), next: sat_inc(st.next), ..st },
                Ok(dirty_none()),
            )
        },
        MutationModel::SetTextContent { id, text } => match kv_get(st.created, id) {
            Some(n) => {
                let next2 = if n.kind is Text {
                    st.next
                } else {
                    sat_inc(st.next)
                };
                (
                    MutState {
                        created: kv_insert(st.created, id, crate::dom::with_text(n, text, st.next)),
                        next: next2,
                        ..st
                    },
                    Ok(dirty_none()),
                )
            },
            None => match resolve_id(st.aliases, id) {
                None => (st, Err("JavaScript DOM mutation skipped invalid node "@ + id)),
                Some(nid) => match crate::dom::find(st.root, nid) {
                    Some(m) => (
                        MutState {
                            root: crate::dom::replace(
                                st.root,
                                nid,
                                crate::dom::with_text(
                                    m,
                                    text,
                                    sat_inc(crate::dom::max_id(st.root)),
                                ),
                            ),
                            ..st
                        },
                        Ok(dirty_dom_layout_render()),
                    ),
                    None => (st, Err("JavaScript DOM mutation skipped missing node "@ + id)),
                },
            },
        },
        MutationModel::AppendChild { parent, child } => {
            let (s1, c) = take_node(st, child);
            match c {
                None => (s1, Err("JavaScript DOM mutation skipped missing child "@ + child)),
                Some(cn) => match kv_get(s1.created, parent) {
                    Some(p) => (
                        MutState {
                            created: kv_insert(s1.created, parent, crate::dom::with_child(p, cn)),
                            ..s1
                        },
                        Ok(dirty_none()),
                    ),
                    None => match resolve_id(s1.aliases, parent) {
                        None => (
                            s1,
                            Err("JavaScript DOM mutation skipped invalid parent "@ + parent),
                        ),
                        Some(pid) => match crate::dom::find(s1.root, pid) {
                            Some(m) => if crate::dom::hosts_children(m) {
                                (
                                    MutState {
                                        root: crate::dom::replace(
                                            s1.root,
                                            pid,
                                            crate::dom::with_child(m, cn),
                                        ),
                                        aliases: kv_insert(s1.aliases, child, cn.id),
                                        ..s1
                                    },
                                    Ok(dirty_all()),
                                )
                            } else {
                                (
                                    s1,
                                    Err("JavaScript DOM mutation skipped missing parent "@ + parent),
                                )
                            },
                            None => (
                                s1,
                                Err("JavaScript DOM mutation skipped missing parent "@ + parent),
                            ),
                        },
                    },
                },
            }
        },
        MutationModel::AttachShadow { host, mode } => {
            if mode != "open"@ {
                (
                    st,
                    Err(
                        "JavaScript Shadow DOM attachShadow skipped unsupported mode "@
                            + crate::text::debug_quoted(mode),
                    ),
                )
            } else {
                match kv_get(st.created, host) {
                    Some(h) => (
                        MutState {
                            created: kv_insert(st.created, host, crate::dom::with_empty_shadow(h)),
                            ..st
                        },
                        Ok(dirty_none()),
                    ),
                    None => match resolve_id(st.aliases, host) {
                        None => (
                            st,
                            Err("JavaScript Shadow DOM attachShadow skipped invalid host "@ + host),
                        ),
                        Some(hid) => match crate::dom::find(st.root, hid) {
                            Some(m) => if crate::dom::hosts_children(m) {
                                (
                                    MutState {
                                        root: crate::dom::replace(
                                            st.root,
                                            hid,
                                            crate::dom::with_empty_shadow(m),
                                        ),
                                        ..st
                                    },
                                    Ok(dirty_all()),
                                )
                            } else {
                                (
                                    st,
                                    Err(
                                        "JavaScript Shadow DOM attachShadow skipped missing host "@
                                            + host,
                                    ),
                                )
                            },
                            None => (
                                st,
                                Err(
                                    "JavaScript Shadow DOM attachShadow skipped missing host "@
                                        + host,
                                ),
                            ),
                        },
                    },
                }
            }
        },
        MutationModel::AppendShadowChild { host, child } => {
            let (s1, c) = take_node(st, child);
            match c {
                None => (s1, Err("JavaScript Shadow DOM mutation skipped missing child "@ + child)),
                Some(cn) => match kv_get(s1.created, host) {
                    Some(h) => (
                        MutState {
                            created: kv_insert(s1.created, host, crate::dom::with_shadow_child(h, cn)),
                            ..s1
                        },
                        Ok(dirty_none()),
                    ),
                    None => match resolve_id(s1.aliases, host) {
                        None => (
                            s1,
                            Err("JavaScript Shadow DOM mutation skipped invalid host "@ + host),
                        ),
                        Some(hid) => match crate::dom::find(s1.root, hid) {
                            Some(m) => if crate::dom::hosts_children(m) {
                                (
                                    MutState {
                                        root: crate::dom::replace(
                                            s1.root,
                                            hid,
                                            crate::dom::with_shadow_child(m, cn),
                                        ),
                                        aliases: kv_insert(s1.aliases, child, cn.id),
                                        ..s1
                                    },
                                    Ok(dirty_all()),
                                )
                            } else {
                                (
                                    s1,
                                    Err("JavaScript Shadow DOM mutation skipped missing host "@ + host),
                                )
                            },
                            None => (
                                s1,
                                Err("JavaScript Shadow DOM mutation skipped missing host "@ + host),
                            ),
                        },
                    },
                },
            }
        },
        MutationModel::Remove { id } => {
            let (s1, c) = take_node(st, id);
            match c {
                Some(_) => (s1, Ok(dirty_all())),
                None => (s1, Err("JavaScript DOM mutation skipped missing node "@ + id)),
            }
        },
        MutationModel::SetAttribute { id, name, value } => match kv_get(st.created, id) {
            Some(n) => if n.kind is Element {
                (
                    MutState {
                        created: kv_insert(
                            st.created,
                            id,
                            crate::dom::with_attr(n, lower(name), value),
                        ),
                        ..st
                    },
                    Ok(dirty_none()),
                )
            } else {
                (st, Err("JavaScript DOM mutation skipped non-element "@ + id))
            },
            None => match resolve_id(st.aliases, id) {
                Some(nid) => match crate::dom::find(st.root, nid) {
                    Some(m) => if m.kind is Element {
                        (
                            MutState {
                                root: crate::dom::replace(
                                    st.root,
                                    nid,
                                    crate::dom::with_attr(m, lower(name), value),
                                ),
                                ..st
                            },
                            Ok(dirty_for_attribute(name)),
                        )
                    } else {
                        (st, Err("JavaScript DOM mutation skipped missing element "@ + id))
                    },
                    None => (st, Err("JavaScript DOM mutation skipped missing element "@ + id)),
                },
                None => (st, Err("JavaScript DOM mutation skipped missing element "@ + id)),
            },
        },
    }
}


/// Returns the next id and advances the counter (saturating).
pub fn take_next_id(next_id: &mut NodeId) -> (r: NodeId)
    ensures
        r == *old(next_id),
        *final(next_id) == sat_inc(*old(next_id)),
{
    let id = *next_id;
    if *next_id < u64::MAX {
        *next_id = *next_id + 1;
    }
    id
}

/// Replaces the text of a created node: a text node gets `text`, any other
/// node gets a single text child with the next id.
pub fn set_created_text_content(node: &mut Node, text: &str, next_id: &mut NodeId)
    ensures
        final(node)@ == crate::dom::with_text(old(node)@, text@, *old(next_id)),
        *final(next_id) == if old(node)@.kind is Text {
            *old(next_id)
        } else {
            sat_inc(*old(next_id))
        },
{
    proof {
        lemma_children_models(*node);
    }
    let is_text = match &node.kind {
        NodeKind::Text(_) => true,
        _ => false,
    };
    if is_text {
        node.kind = NodeKind::Text(crate::text::string_from(text));
    } else {
        let mut child = Node::text(text);
        child.id = take_next_id(next_id);
        let mut children: Vec<Node> = Vec::new();
        children.push(child);
        node.children = children;
        proof {
            assert(models(node.children@) =~= seq![crate::dom::text_model(*old(next_id), text@)]);
        }
    }
    proof {
        lemma_children_models(*node);
        assert(node@ =~= crate::dom::with_text(old(node)@, text@, *old(next_id)));
    }
}

/// The dirty stages of an attribute change.
pub fn dirty_for_attribute_exec(name: &str) -> (r: DirtyState)
    ensures
        r == dirty_for_attribute(name@),
{
    let n = crate::text::lower_vec(&chars_of(name));
    if crate::text::vec_eq_str(&n, "class") || crate::text::vec_eq_str(&n, "id")
        || crate::text::vec_eq_str(&n, "style") {
        DirtyState::all()
    } else if crate::text::vec_eq_str(&n, "href") || crate::text::vec_eq_str(&n, "action")
        || crate::text::vec_eq_str(&n, "method") || crate::text::vec_eq_str(&n, "name")
        || crate::text::vec_eq_str(&n, "value") || crate::text::vec_eq_str(&n, "type")
        || crate::text::vec_eq_str(&n, "placeholder") {
        DirtyState::dom_layout_render()
    } else {
        DirtyState { dom: true, style: false, layout: false, render: false }
    }
}

/// `prefix` followed by `key`.
fn message(prefix: &str, key: &str) -> (r: String)
    ensures
        r@ == prefix@ + key@,
{
    let mut m = crate::text::string_from(prefix);
    crate::text::push_str(&mut m, key);
    m
}

/// The batch state of a document, scratch state and id counter.
pub open spec fn state_of(root: NodeModel, scratch: MutationScratch, next: u64) -> MutState {
    MutState { root, created: scratch.created(), aliases: scratch.aliases(), next }
}

/// Takes the node that script id `key` names out of its place.
fn take_node_exec(document: &mut Document, scratch: &mut MutationScratch, key: &str) -> (r: Option<Node>)
    ensures
        ({
            let (st2, n) = take_node(state_of(old(document).root@, *old(scratch), 0), key@);
            &&& final(document).root@ == st2.root
            &&& final(scratch).created() == st2.created
            &&& final(scratch).aliases() == st2.aliases
            &&& match r {
                Some(x) => n == Some(x@),
                None => n is None,
            }
        }),
{
    match scratch.take_created(key) {
        Some(n) => Some(n),
        None => match scratch.resolve(key) {
            Some(id) => {
                document.remove_node(id)
            },
            None => None,
        },
    }
}

/// The outcome of a mutation step as an executable result.
pub open spec fn result_matches(r: Result<DirtyState, String>, want: Result<DirtyState, Seq<char>>) -> bool {
    match r {
        Ok(d) => want == Ok::<DirtyState, Seq<char>>(d),
        Err(m) => want == Err::<DirtyState, Seq<char>>(m@),
    }
}


/// Applies a `CreateElement` mutation.
fn apply_create_element(
    document: &mut Document,
    scratch: &mut MutationScratch,
    next_id: &mut NodeId,
    id: String, tag_name: String,
) -> (r: Result<DirtyState, String>)
    ensures
        ({
            let (st2, want) = mutation_step(
                state_of(old(document).root@, *old(scratch), *old(next_id)),
                MutationModel::CreateElement { id: id@, tag_name: tag_name@ },
            );
            &&& final(document).root@ == st2.root
            &&& final(scratch).created() == st2.created
            &&& final(scratch).aliases() == st2.aliases
            &&& *final(next_id) == st2.next
            &&& result_matches(r, want)
        }),
{
    broadcast use crate::dom::lemma_models_push;
        let mut node = Node::element(tag_name.as_str(), AttributeMap::new());
        node.id = take_next_id(next_id);
        proof {
            lemma_children_models(node);
        }
        scratch.insert_created(id.as_str(), node);
        Ok(DirtyState::default())
}

/// Applies a `CreateTextNode` mutation.
fn apply_create_text_node(
    document: &mut Document,
    scratch: &mut MutationScratch,
    next_id: &mut NodeId,
    id: String, text: String,
) -> (r: Result<DirtyState, String>)
    ensures
        ({
            let (st2, want) = mutation_step(
                state_of(old(document).root@, *old(scratch), *old(next_id)),
                MutationModel::CreateTextNode { id: id@, text: text@ },
            );
            &&& final(document).root@ == st2.root
            &&& final(scratch).created() == st2.created
            &&& final(scratch).aliases() == st2.aliases
            &&& *final(next_id) == st2.next
            &&& result_matches(r, want)
        }),
{
    broadcast use crate::dom::lemma_models_push;
        let mut node = Node::text(text.as_str());
        node.id = take_next_id(next_id);
        proof {
            lemma_children_models(node);
        }
        scratch.insert_created(id.as_str(), node);
        Ok(DirtyState::default())
}

/// Applies a `SetTextContent` mutation.
fn apply_set_text_content(
    document: &mut Document,
    scratch: &mut MutationScratch,
    next_id: &mut NodeId,
    id: String, text: String,
) -> (r: Result<DirtyState, String>)
    ensures
        ({
            let (st2, want) = mutation_step(
                state_of(old(document).root@, *old(scratch), *old(next_id)),
                MutationModel::SetTextContent { id: id@, text: text@ },
            );
            &&& final(document).root@ == st2.root
            &&& final(scratch).created() == st2.created
            &&& final(scratch).aliases() == st2.aliases
            &&& *final(next_id) == st2.next
            &&& result_matches(r, want)
        }),
{
    broadcast use crate::dom::lemma_models_push;
        match scratch.take_created_at(id.as_str()) {
            Some((i, mut node)) => {
                set_created_text_content(&mut node, text.as_str(), next_id);
                scratch.put_created_at(i, id.as_str(), node);
                proof {
                    assert(scratch.created() =~= kv_insert(old(scratch).created(), id@, node@));
                }
                return Ok(DirtyState::default());
            },
            None => {},
        }
        match scratch.resolve(id.as_str()) {
            None => Err(message("JavaScript DOM mutation skipped invalid node ", id.as_str())),
            Some(node_id) => {
                if document.set_text_content(node_id, text.as_str()) {
                    Ok(DirtyState::dom_layout_render())
                } else {
                    Err(message("JavaScript DOM mutation skipped missing node ", id.as_str()))
                }
            },
        }
}

/// Applies a `AppendChild` mutation.
fn apply_append_child(
    document: &mut Document,
    scratch: &mut MutationScratch,
    next_id: &mut NodeId,
    parent: String, child: String,
) -> (r: Result<DirtyState, String>)
    ensures
        ({
            let (st2, want) = mutation_step(
                state_of(old(document).root@, *old(scratch), *old(next_id)),
                MutationModel::AppendChild { parent: parent@, child: child@ },
            );
            &&& final(document).root@ == st2.root
            &&& final(scratch).created() == st2.created
            &&& final(scratch).aliases() == st2.aliases
            &&& *final(next_id) == st2.next
            &&& result_matches(r, want)
        }),
{
    broadcast use crate::dom::lemma_models_push;
        let ghost st0 = state_of(document.root@, *scratch, *next_id);
        let child_node = take_node_exec(document, scratch, child.as_str());
        let child_node = match child_node {
            Some(c) => c,
            None => {
                return Err(message("JavaScript DOM mutation skipped missing child ", child.as_str()));
            },
        };
        let child_node_id = child_node.id;
        match scratch.take_created_at(parent.as_str()) {
            Some((i, mut parent_node)) => {
                proof {
                    lemma_children_models(parent_node);
                }
                parent_node.children.push(child_node);
                proof {
                    lemma_children_models(parent_node);
                }
                scratch.put_created_at(i, parent.as_str(), parent_node);
                return Ok(DirtyState::default());
            },
            None => {},
        }
        match scratch.resolve(parent.as_str()) {
            None => Err(message("JavaScript DOM mutation skipped invalid parent ", parent.as_str())),
            Some(parent_id) => {
                if document.append_child(parent_id, child_node) {
                    scratch.insert_alias(child.as_str(), child_node_id);
                    Ok(DirtyState::all())
                } else {
                    Err(message("JavaScript DOM mutation skipped missing parent ", parent.as_str()))
                }
            },
        }
}

/// Applies a `AttachShadow` mutation.
fn apply_attach_shadow(
    document: &mut Document,
    scratch: &mut MutationScratch,
    next_id: &mut NodeId,
    host: String, mode: String,
) -> (r: Result<DirtyState, String>)
    ensures
        ({
            let (st2, want) = mutation_step(
                state_of(old(document).root@, *old(scratch), *old(next_id)),
                MutationModel::AttachShadow { host: host@, mode: mode@ },
            );
            &&& final(document).root@ == st2.root
            &&& final(scratch).created() == st2.created
            &&& final(scratch).aliases() == st2.aliases
            &&& *final(next_id) == st2.next
            &&& result_matches(r, want)
        }),
{
    broadcast use crate::dom::lemma_models_push;
        if !crate::text::vec_eq_str(&chars_of(mode.as_str()), "open") {
            let d = crate::text::debug_string(mode.as_str());
            let mut m = crate::text::string_from(
                "JavaScript Shadow DOM attachShadow skipped unsupported mode ",
            );
            crate::text::push_str(&mut m, d.as_str());
            return Err(m);
        }
        match scratch.take_created_at(host.as_str()) {
            Some((i, mut host_node)) => {
                proof {
                    lemma_children_models(host_node);
                }
                host_node.shadow_children = Vec::new();
                proof {
                    lemma_children_models(host_node);
                    assert(models(host_node.shadow_children@) =~= Seq::<NodeModel>::empty());
                }
                scratch.put_created_at(i, host.as_str(), host_node);
                return Ok(DirtyState::default());
            },
            None => {},
        }
        match scratch.resolve(host.as_str()) {
            None => Err(message("JavaScript Shadow DOM attachShadow skipped invalid host ", host.as_str())),
            Some(host_id) => {
                if document.attach_shadow_root(host_id) {
                    Ok(DirtyState::all())
                } else {
                    Err(message("JavaScript Shadow DOM attachShadow skipped missing host ", host.as_str()))
                }
            },
        }
}

/// Applies a `AppendShadowChild` mutation.
fn apply_append_shadow_child(
    document: &mut Document,
    scratch: &mut MutationScratch,
    next_id: &mut NodeId,
    host: String, child: String,
) -> (r: Result<DirtyState, String>)
    ensures
        ({
            let (st2, want) = mutation_step(
                state_of(old(document).root@, *old(scratch), *old(next_id)),
                MutationModel::AppendShadowChild { host: host@, child: child@ },
            );
            &&& final(document).root@ == st2.root
            &&& final(scratch).created() == st2.created
            &&& final(scratch).aliases() == st2.aliases
            &&& *final(next_id) == st2.next
            &&& result_matches(r, want)
        }),
{
    broadcast use crate::dom::lemma_models_push;
        let child_node = take_node_exec(document, scratch, child.as_str());
        let child_node = match child_node {
            Some(c) => c,
            None => {
                return Err(message("JavaScript Shadow DOM mutation skipped missing child ", child.as_str()));
            },
        };
        let child_node_id = child_node.id;
        match scratch.take_created_at(host.as_str()) {
            Some((i, mut host_node)) => {
                proof {
                    lemma_children_models(host_node);
                }
                host_node.shadow_children.push(child_node);
                proof {
                    lemma_children_models(host_node);
                }
                scratch.put_created_at(i, host.as_str(), host_node);
                return Ok(DirtyState::default());
            },
            None => {},
        }
        match scratch.resolve(host.as_str()) {
            None => Err(message("JavaScript Shadow DOM mutation skipped invalid host ", host.as_str())),
            Some(host_id) => {
                if document.append_shadow_child(host_id, child_node) {
                    scratch.insert_alias(child.as_str(), child_node_id);
                    Ok(DirtyState::all())
                } else {
                    Err(message("JavaScript Shadow DOM mutation skipped missing host ", host.as_str()))
                }
            },
        }
}

/// Applies a `Remove` mutation.
fn apply_remove(
    document: &mut Document,
    scratch: &mut MutationScratch,
    next_id: &mut NodeId,
    id: String,
) -> (r: Result<DirtyState, String>)
    ensures
        ({
            let (st2, want) = mutation_step(
                state_of(old(document).root@, *old(scratch), *old(next_id)),
                MutationModel::Remove { id: id@ },
            );
            &&& final(document).root@ == st2.root
            &&& final(scratch).created() == st2.created
            &&& final(scratch).aliases() == st2.aliases
            &&& *final(next_id) == st2.next
            &&& result_matches(r, want)
        }),
{
    broadcast use crate::dom::lemma_models_push;
        let removed = take_node_exec(document, scratch, id.as_str());
        if removed.is_some() {
            Ok(DirtyState::all())
        } else {
            Err(message("JavaScript DOM mutation skipped missing node ", id.as_str()))
        }
}

/// Applies a `SetAttribute` mutation.
fn apply_set_attribute(
    document: &mut Document,
    scratch: &mut MutationScratch,
    next_id: &mut NodeId,
    id: String, name: String, value: String,
) -> (r: Result<DirtyState, String>)
    ensures
        ({
            let (st2, want) = mutation_step(
                state_of(old(document).root@, *old(scratch), *old(next_id)),
                MutationModel::SetAttribute { id: id@, name: name@, value: value@ },
            );
            &&& final(document).root@ == st2.root
            &&& final(scratch).created() == st2.created
            &&& final(scratch).aliases() == st2.aliases
            &&& *final(next_id) == st2.next
            &&& result_matches(r, want)
        }),
{
    broadcast use crate::dom::lemma_models_push;
        match scratch.take_created_at(id.as_str()) {
            Some((i, mut node)) => {
                proof {
                    lemma_children_models(node);
                    lemma_key_index(old(scratch).created(), id@, 0);
                }
                let ghost orig = node@;
                let ok = match &mut node.kind {
                    NodeKind::Element(element) => {
                        let key = crate::text::lower_string(name.as_str());
                        element.attributes.insert(key, value);
                        true
                    },
                    _ => false,
                };
                proof {
                    lemma_children_models(node);
                }
                scratch.put_created_at(i, id.as_str(), node);
                if ok {
                    return Ok(DirtyState::default());
                }
                proof {
                    assert(node@ == orig);
                    assert(scratch.created() =~= old(scratch).created());
                }
                return Err(message("JavaScript DOM mutation skipped non-element ", id.as_str()));
            },
            None => {},
        }
        let ok = match scratch.resolve(id.as_str()) {
            Some(node_id) => document.set_attribute(node_id, name.as_str(), value.as_str()),
            None => false,
        };
        if ok {
            Ok(dirty_for_attribute_exec(name.as_str()))
        } else {
            Err(message("JavaScript DOM mutation skipped missing element ", id.as_str()))
        }
}

/// Applies one script-requested DOM mutation. Nodes created by scripts wait
/// in `scratch` until they are attached; `next_id` numbers them.
pub fn apply_dom_mutation(
    document: &mut Document,
    scratch: &mut MutationScratch,
    next_id: &mut NodeId,
    operation: DomMutation,
) -> (r: Result<DirtyState, String>)
    ensures
        ({
            let (st2, want) = mutation_step(
                state_of(old(document).root@, *old(scratch), *old(next_id)),
                operation@,
            );
            &&& final(document).root@ == st2.root
            &&& final(scratch).created() == st2.created
            &&& final(scratch).aliases() == st2.aliases
            &&& *final(next_id) == st2.next
            &&& result_matches(r, want)
        }),
{
    match operation {
        DomMutation::CreateElement { id, tag_name } => apply_create_element(document, scratch, next_id, id, tag_name),
        DomMutation::CreateTextNode { id, text } => apply_create_text_node(document, scratch, next_id, id, text),
        DomMutation::SetTextContent { id, text } => apply_set_text_content(document, scratch, next_id, id, text),
        DomMutation::AppendChild { parent, child } => apply_append_child(document, scratch, next_id, parent, child),
        DomMutation::AttachShadow { host, mode } => apply_attach_shadow(document, scratch, next_id, host, mode),
        DomMutation::AppendShadowChild { host, child } => apply_append_shadow_child(document, scratch, next_id, host, child),
        DomMutation::Remove { id } => apply_remove(document, scratch, next_id, id),
        DomMutation::SetAttribute { id, name, value } => apply_set_attribute(document, scratch, next_id, id, name, value),
    }
}


impl Clone for DomMutation {
    fn clone(&self) -> (r: Self)
        ensures
            r@ == self@,
    {
        match self {
            DomMutation::CreateElement { id, tag_name } => DomMutation::CreateElement {
                id: id.clone(),
                tag_name: tag_name.clone(),
            },
            DomMutation::CreateTextNode { id, text } => DomMutation::CreateTextNode {
                id: id.clone(),
                text: text.clone(),
            },
            DomMutation::SetTextContent { id, text } => DomMutation::SetTextContent {
                id: id.clone(),
                text: text.clone(),
            },
            DomMutation::AppendChild { parent, child } => DomMutation::AppendChild {
                parent: parent.clone(),
                child: child.clone(),
            },
            DomMutation::AttachShadow { host, mode } => DomMutation::AttachShadow {
                host: host.clone(),
                mode: mode.clone(),
            },
            DomMutation::AppendShadowChild { host, child } => DomMutation::AppendShadowChild {
                host: host.clone(),
                child: child.clone(),
            },
            DomMutation::Remove { id } => DomMutation::Remove { id: id.clone() },
            DomMutation::SetAttribute { id, name, value } => DomMutation::SetAttribute {
                id: id.clone(),
                name: name.clone(),
                value: value.clone(),
            },
        }
    }
}

/// Diagnostics and dirty stages of a batch of mutations.
#[derive(Debug, Clone, PartialEq, Eq)]
pub struct DomMutationReport {
    /// One diagnostic per skipped mutation, in order.
    pub diagnostics: Vec<String>,
    /// Stages dirtied by the applied mutations.
    pub dirty: DirtyState,
}

/// A batch of mutations applied in order from `st`: the final state, the
/// diagnostics of the skipped ones, and the union of the dirty stages of
/// the applied ones.
pub open spec fn run_mutations(st: MutState, ops: Seq<MutationModel>) -> (
    MutState,
    Seq<Seq<char>>,
    DirtyState,
)
    decreases ops.len(),
{
    if ops.len() == 0 {
        (st, Seq::empty(), dirty_none())
    } else {
        let (s1, d1, y1) = run_mutations(st, ops.drop_last());
        let (s2, res) = mutation_step(s1, ops.last());
        match res {
            Ok(y) => (s2, d1, dirty_union(y1, y)),
            Err(m) => (s2, d1.push(m), y1),
        }
    }
}

/// The state a batch starts from: nothing created, no aliases, and created
/// nodes numbered after the largest id of the tree.
pub open spec fn batch_start(root: NodeModel) -> MutState {
    MutState {
        root,
        created: Seq::empty(),
        aliases: Seq::empty(),
        next: sat_inc(crate::dom::max_id(root)),
    }
}

/// Views of a sequence of mutations.
pub open spec fn mutation_models(ops: Seq<DomMutation>) -> Seq<MutationModel> {
    Seq::new(ops.len(), |i: int| ops[i]@)
}

/// Applies script-requested DOM mutations in order. A mutation that cannot
/// apply is skipped with a diagnostic; created nodes that are never attached
/// are dropped.
#[verifier::spinoff_prover]
#[verifier::rlimit(40)]
pub fn apply_dom_mutations(document: &mut Document, operations: &Vec<DomMutation>) -> (r: DomMutationReport)
    ensures
        ({
            let (st, diags, dirty) = run_mutations(
                batch_start(old(document).root@),
                mutation_models(operations@),
            );
            &&& final(document).root@ == st.root
            &&& string_views(r.diagnostics@) == diags
            &&& r.dirty == dirty
        }),
{
    let ghost ops = mutation_models(operations@);
    let mut scratch = MutationScratch::new();
    let mut diagnostics: Vec<String> = Vec::new();
    let mut dirty = DirtyState::default();
    let mut next_id = document.next_node_id();
    let mut i: usize = 0;
    proof {
        assert(ops.take(0) =~= Seq::<MutationModel>::empty());
        assert(string_views(diagnostics@) =~= Seq::<Seq<char>>::empty());
    }
    while i < operations.len()
        invariant
            i <= operations@.len(),
            ops == mutation_models(operations@),
            ({
                let (st, diags, y) = run_mutations(batch_start(old(document).root@), ops.take(i as int));
                &&& document.root@ == st.root
                &&& scratch.created() == st.created
                &&& scratch.aliases() == st.aliases
                &&& next_id == st.next
                &&& string_views(diagnostics@) == diags
                &&& dirty == y
            }),
        decreases operations@.len() - i,
    {
        proof {
            assert(ops.take(i + 1).drop_last() =~= ops.take(i as int));
            assert(ops.take(i + 1).last() == operations@[i as int]@);
        }
        let op = operations[i].clone();
        let ghost before = string_views(diagnostics@);
        match apply_dom_mutation(document, &mut scratch, &mut next_id, op) {
            Ok(d) => {
                dirty.merge(d);
            },
            Err(m) => {
                diagnostics.push(m);
                proof {
                    assert(string_views(diagnostics@) =~= before.push(diagnostics@.last()@));
                }
            },
        }
        i += 1;
    }
    proof {
        assert(ops.take(ops.len() as int) =~= ops);
    }
    DomMutationReport { diagnostics, dirty }
}
/// Declares the Boa engine's context to the verifier as an opaque type.
#[verifier::external_type_specification]
#[verifier::external_body]
pub struct ExContext(boa_engine::Context);

/// A Boa context in which the library runs scripts, with a record of the
/// sources it evaluated there, in order.
pub struct ScriptEngine {
    /// The engine context (preludes and reads go through it directly).
    pub context: boa_engine::Context,
    log: Ghost<Seq<Seq<char>>>,
    thrown: Ghost<Seq<Option<Seq<char>>>>,
}

impl ScriptEngine {
    /// The sources this engine evaluated through `run_script_sources`.
    pub closed spec fn evaluated(&self) -> Seq<Seq<char>> {
        self.log@
    }

    /// What each of those evaluations threw: the error's text, or `None`
    /// when it ran to the end.
    pub closed spec fn thrown(&self) -> Seq<Option<Seq<char>>> {
        self.thrown@
    }

    /// An engine over `context` that has evaluated nothing yet.
    pub fn new(context: boa_engine::Context) -> (r: Self)
        ensures
            r.evaluated() == Seq::<Seq<char>>::empty(),
            r.thrown() == Seq::<Option<Seq<char>>>::empty(),
    {
        ScriptEngine { context, log: Ghost(Seq::empty()), thrown: Ghost(Seq::empty()) }
    }
}

/// `boa_engine::Context::eval` of `code`, with the context's loop limit set
/// to `max_loop_iterations` first, so that every loop stops; the thrown
/// error as its text. The contract records that `code` was evaluated and
/// what it threw; nothing is stated of which outcome comes, which depends
/// on the context's state.
#[verifier::external_body]
fn engine_eval(engine: &mut ScriptEngine, code: &str, max_loop_iterations: u64) -> (r: Result<(), String>)
    ensures
        final(engine).evaluated() == old(engine).evaluated().push(code@),
        final(engine).thrown() == old(engine).thrown().push(
            match r {
                Ok(_) => None,
                Err(e) => Some(e@),
            },
        ),
{
    let mut limits = boa_engine::vm::RuntimeLimits::default();
    limits.set_loop_iteration_limit(max_loop_iterations);
    engine.context.set_runtime_limits(limits);
    engine.context.eval(boa_engine::Source::from_bytes(code.as_bytes())).map(|_| ()).map_err(|error| error.to_string())
}

/// Scripts as plain values: labels and codes.
pub open spec fn script_views(s: Seq<ScriptSource>) -> Seq<(Seq<char>, Seq<char>)> {
    Seq::new(s.len(), |i: int| (s[i].label@, s[i].code@))
}

/// Optional texts as plain values.
pub open spec fn opt_text_views(s: Seq<Option<String>>) -> Seq<Option<Seq<char>>> {
    Seq::new(s.len(), |i: int| crate::extract::opt_text(s[i]))
}

/// What running the script at position `index` reports: why it is skipped,
/// if it is; else the error it threw (`error`), if it threw one.
pub open spec fn script_report(
    index: nat,
    label: Seq<char>,
    code: Seq<char>,
    options: ExecutionOptions,
    error: Option<Seq<char>>,
) -> Seq<Seq<char>> {
    match admission_of(index, label, code, options) {
        Some(m) => seq![m],
        None => match error {
            Some(e) => seq!["JavaScript error in "@ + label + ": "@ + e],
            None => Seq::empty(),
        },
    }
}

/// What running the first `k` scripts reports, in order, given the error
/// each one threw, if it ran and threw.
pub open spec fn run_diagnostics(
    scripts: Seq<(Seq<char>, Seq<char>)>,
    options: ExecutionOptions,
    errors: Seq<Option<Seq<char>>>,
    k: int,
) -> Seq<Seq<char>>
    decreases k,
{
    if k <= 0 {
        Seq::empty()
    } else {
        run_diagnostics(scripts, options, errors, k - 1) + script_report(
            (k - 1) as nat,
            scripts[k - 1].0,
            scripts[k - 1].1,
            options,
            errors[k - 1],
        )
    }
}

/// The diagnostics of a run of scripts given the error that each threw
/// (`None` for one that ran cleanly or was skipped).
pub fn script_diagnostics(scripts: &[ScriptSource], options: ExecutionOptions, errors: &[Option<String>]) -> (r: Vec<
    String,
>)
    requires
        errors@.len() == scripts@.len(),
    ensures
        string_views(r@) == run_diagnostics(
            script_views(scripts@),
            options,
            opt_text_views(errors@),
            scripts@.len() as int,
        ),
{
    let mut out: Vec<String> = Vec::new();
    let mut i: usize = 0;
    proof {
        assert(string_views(out@) =~= Seq::<Seq<char>>::empty());
    }
    while i < scripts.len()
        invariant
            i <= scripts@.len(),
            errors@.len() == scripts@.len(),
            string_views(out@) == run_diagnostics(
                script_views(scripts@),
                options,
                opt_text_views(errors@),
                i as int,
            ),
        decreases scripts@.len() - i,
    {
        let ghost before = string_views(out@);
        let script = &scripts[i];
        proof {
            assert(script_views(scripts@)[i as int] == (script.label@, script.code@));
            assert(opt_text_views(errors@)[i as int] == crate::extract::opt_text(errors@[i as int]));
        }
        match script_admission(i, script, options) {
            Some(m) => {
                out.push(m);
                proof {
                    assert(string_views(out@) =~= before + seq![out@.last()@]);
                }
            },
            None => match &errors[i] {
                Some(e) => {
                    let mut m = crate::text::string_from("JavaScript error in ");
                    crate::text::push_str(&mut m, script.label.as_str());
                    crate::text::push_str(&mut m, ": ");
                    crate::text::push_str(&mut m, e.as_str());
                    out.push(m);
                    proof {
                        assert(string_views(out@) =~= before + seq![out@.last()@]);
                    }
                },
                None => {
                    proof {
                        assert(before + Seq::<Seq<char>>::empty() =~= before);
                    }
                },
            },
        }
        i += 1;
    }
    out
}

/// The codes of the scripts among the first `k` that may run, in order.
pub open spec fn admitted_codes(scripts: Seq<(Seq<char>, Seq<char>)>, options: ExecutionOptions, k: int) -> Seq<
    Seq<char>,
>
    decreases k,
{
    if k <= 0 {
        Seq::empty()
    } else {
        let before = admitted_codes(scripts, options, k - 1);
        if admission_of((k - 1) as nat, scripts[k - 1].0, scripts[k - 1].1, options) is None {
            before.push(scripts[k - 1].1)
        } else {
            before
        }
    }
}

/// The error each of the first `k` scripts threw, given what the engine
/// threw (`thrown`) for the scripts that may run, in order: `None` for a
/// skipped script.
pub open spec fn script_errors(
    scripts: Seq<(Seq<char>, Seq<char>)>,
    options: ExecutionOptions,
    thrown: Seq<Option<Seq<char>>>,
    k: int,
) -> Seq<Option<Seq<char>>>
    decreases k,
{
    if k <= 0 {
        Seq::empty()
    } else {
        let before = script_errors(scripts, options, thrown, k - 1);
        if admission_of((k - 1) as nat, scripts[k - 1].0, scripts[k - 1].1, options) is None {
            before.push(thrown[admitted_codes(scripts, options, k - 1).len() as int])
        } else {
            before.push(None)
        }
    }
}

/// The errors of the first `k` scripts read only what was thrown by the
/// scripts among them that ran.
proof fn lemma_script_errors_prefix(
    scripts: Seq<(Seq<char>, Seq<char>)>,
    options: ExecutionOptions,
    thrown: Seq<Option<Seq<char>>>,
    more: Seq<Option<Seq<char>>>,
    k: int,
)
    requires
        admitted_codes(scripts, options, k).len() <= thrown.len(),
    ensures
        script_errors(scripts, options, thrown + more, k) == script_errors(scripts, options, thrown, k),
        script_errors(scripts, options, thrown, k).len() == if k <= 0 {
            0
        } else {
            k
        },
    decreases k,
{
    if k > 0 {
        lemma_admitted_grows(scripts, options, k);
        lemma_script_errors_prefix(scripts, options, thrown, more, k - 1);
        let n = admitted_codes(scripts, options, k - 1).len() as int;
        if admission_of((k - 1) as nat, scripts[k - 1].0, scripts[k - 1].1, options) is None {
            assert((thrown + more)[n] == thrown[n]);
        }
    }
}

proof fn lemma_admitted_grows(scripts: Seq<(Seq<char>, Seq<char>)>, options: ExecutionOptions, k: int)
    requires
        k > 0,
    ensures
        admitted_codes(scripts, options, k - 1).len() <= admitted_codes(scripts, options, k).len(),
        admission_of((k - 1) as nat, scripts[k - 1].0, scripts[k - 1].1, options) is None ==> admitted_codes(
            scripts,
            options,
            k - 1,
        ).len() < admitted_codes(scripts, options, k).len(),
{
}

/// Runs scripts in order in `engine`: a script that may not run is skipped
/// with its reason and not evaluated; every other one is evaluated, in
/// order, and one that throws is reported with the error the engine threw.
pub fn run_script_sources(engine: &mut ScriptEngine, scripts: &[ScriptSource], options: ExecutionOptions) -> (r: Vec<
    String,
>)
    ensures
        final(engine).evaluated() == old(engine).evaluated() + admitted_codes(
            script_views(scripts@),
            options,
            scripts@.len() as int,
        ),
        final(engine).thrown().len() == old(engine).thrown().len() + admitted_codes(
            script_views(scripts@),
            options,
            scripts@.len() as int,
        ).len(),
        final(engine).thrown().take(old(engine).thrown().len() as int) == old(engine).thrown(),
        string_views(r@) == run_diagnostics(
            script_views(scripts@),
            options,
            script_errors(
                script_views(scripts@),
                options,
                final(engine).thrown().skip(old(engine).thrown().len() as int),
                scripts@.len() as int,
            ),
            scripts@.len() as int,
        ),
{
    let ghost start = engine.evaluated();
    let ghost tstart = engine.thrown();
    let ghost sv = script_views(scripts@);
    let mut errors: Vec<Option<String>> = Vec::new();
    let mut i: usize = 0;
    proof {
        assert(start + admitted_codes(sv, options, 0) =~= start);
    }
    while i < scripts.len()
        invariant
            i <= scripts@.len(),
            errors@.len() == i,
            sv == script_views(scripts@),
            engine.evaluated() == start + admitted_codes(sv, options, i as int),
            engine.thrown().len() == tstart.len() + admitted_codes(sv, options, i as int).len(),
            engine.thrown().take(tstart.len() as int) == tstart,
            opt_text_views(errors@) == script_errors(
                sv,
                options,
                engine.thrown().skip(tstart.len() as int),
                i as int,
            ),
        decreases scripts@.len() - i,
    {
        let ghost t0 = engine.thrown().skip(tstart.len() as int);
        let script = &scripts[i];
        proof {
            assert(sv[i as int] == (script.label@, script.code@));
        }
        let ghost before = engine.evaluated();
        let error = match script_admission(i, script, options) {
            Some(_) => None,
            None => {
                let outcome = engine_eval(engine, script.code.as_str(), options.max_loop_iterations);
                proof {
                    assert(engine.evaluated() =~= start + admitted_codes(sv, options, i + 1));
                    assert(engine.thrown().take(tstart.len() as int) =~= tstart);
                }
                match outcome {
                    Ok(()) => None,
                    Err(e) => Some(e),
                }
            },
        };
        let ghost ev0 = opt_text_views(errors@);
        errors.push(error);
        proof {
            let t1 = engine.thrown().skip(tstart.len() as int);
            assert(t0 == t1.take(t0.len() as int) || t1 == t0);
            lemma_admitted_grows(sv, options, i + 1);
            if t1 != t0 {
                assert(t1 =~= t0 + t1.skip(t0.len() as int));
                lemma_script_errors_prefix(sv, options, t0, t1.skip(t0.len() as int), i as int);
                assert(t1[admitted_codes(sv, options, i as int).len() as int] == crate::extract::opt_text(error));
            } else {
                lemma_script_errors_prefix(sv, options, t0, Seq::empty(), i as int);
            }
            assert(opt_text_views(errors@) =~= ev0.push(crate::extract::opt_text(error)));
        }
        i += 1;
    }
    let r = script_diagnostics(scripts, options, errors.as_slice());
    r
}

/// Whether `r` is the report of a run that did not start: the disabled
/// diagnostic when there was something to run, nothing else.
pub open spec fn not_run_report(r: ExecutionReport, anything_to_run: bool) -> bool {
    &&& string_views(r.diagnostics@) == (if anything_to_run {
        seq!["JavaScript disabled by configuration"@]
    } else {
        Seq::<Seq<char>>::empty()
    })
    &&& r.event_handlers@.len() == 0
    &&& r.browser_actions@.len() == 0
    &&& r.storage_actions@.len() == 0
    &&& r.dirty == dirty_none()
}

/// Whether a run of scripts with DOM bindings stops before the engine: with
/// no scripts it gives the empty report; with JavaScript disabled, the
/// disabled diagnostic. `None` when the scripts are to run.
pub fn dom_run_gate(scripts_empty: bool, options: ExecutionOptions) -> (r: Option<ExecutionReport>)
    ensures
        scripts_empty ==> (r matches Some(x) && not_run_report(x, false)),
        !scripts_empty && !options.enabled ==> (r matches Some(x) && not_run_report(x, true)),
        !scripts_empty && options.enabled ==> r is None,
{
    if scripts_empty {
        Some(ExecutionReport::disabled(false))
    } else if !options.enabled {
        Some(ExecutionReport::disabled(true))
    } else {
        None
    }
}

/// Whether a timer callback stops before the engine: with JavaScript
/// disabled it gives the disabled diagnostic. `None` when it is to run.
pub fn timer_run_gate(options: ExecutionOptions) -> (r: Option<ExecutionReport>)
    ensures
        !options.enabled ==> (r matches Some(x) && not_run_report(x, true)),
        options.enabled ==> r is None,
{
    if !options.enabled {
        Some(ExecutionReport::disabled(true))
    } else {
        None
    }
}

/// The report of a run with DOM bindings, from what its steps gave: the
/// diagnostics of the run, then of the DOM mutations, then of custom
/// elements, then the console; the rest as read, and the stages the
/// mutations dirtied.
pub fn dom_execution_report(
    run: Vec<String>,
    mutations: DomMutationReport,
    event_handlers: Vec<EventHandler>,
    custom: Vec<String>,
    console: Vec<String>,
    browser_actions: Vec<BrowserAction>,
    storage_actions: Vec<StorageAction>,
) -> (r: ExecutionReport)
    ensures
        string_views(r.diagnostics@) == string_views(run@) + string_views(mutations.diagnostics@)
            + string_views(custom@) + string_views(console@),
        r.event_handlers@ == event_handlers@,
        r.browser_actions@ == browser_actions@,
        r.storage_actions@ == storage_actions@,
        r.dirty == mutations.dirty,
{
    let dirty = mutations.dirty;
    let mut diagnostics = run;
    let mut more = mutations.diagnostics;
    let mut custom = custom;
    let mut console = console;
    let ghost a = diagnostics@;
    let ghost b = more@;
    let ghost c = custom@;
    let ghost d = console@;
    diagnostics.append(&mut more);
    diagnostics.append(&mut custom);
    diagnostics.append(&mut console);
    proof {
        assert(diagnostics@ =~= a + b + c + d);
        assert(string_views(diagnostics@) =~= string_views(a) + string_views(b) + string_views(c)
            + string_views(d));
    }
    ExecutionReport { diagnostics, event_handlers, browser_actions, storage_actions, dirty }
}

/// The diagnostic of a timer callback that threw `error`.
pub fn timer_error_message(error: &str) -> (r: String)
    ensures
        r@ == "JavaScript timer error: "@ + error@,
{
    let mut m = crate::text::string_from("JavaScript timer error: ");
    crate::text::push_str(&mut m, error);
    m
}

/// Whether dispatching an event stops before the engine: with no handlers
/// or with JavaScript disabled it gives the empty report. `None` when the
/// event is to be dispatched.
pub fn dispatch_gate(handlers_empty: bool, options: ExecutionOptions) -> (r: Option<EventDispatchReport>)
    ensures
        handlers_empty || !options.enabled ==> (r matches Some(x) && x.diagnostics@.len() == 0
            && !x.default_prevented && x.browser_actions@.len() == 0 && x.storage_actions@.len() == 0
            && x.dirty == dirty_none()),
        !handlers_empty && options.enabled ==> r is None,
{
    if handlers_empty || !options.enabled {
        Some(
            EventDispatchReport {
                diagnostics: Vec::new(),
                default_prevented: false,
                browser_actions: Vec::new(),
                storage_actions: Vec::new(),
                dirty: DirtyState { dom: false, style: false, layout: false, render: false },
            },
        )
    } else {
        None
    }
}

/// The report of an event dispatch, from what its steps gave: the error
/// the dispatch threw, if any, then the diagnostics of the DOM mutations,
/// of custom elements and of the console; the rest as read, and the stages
/// the mutations dirtied.
pub fn dispatch_report(
    event_type: &str,
    error: Option<String>,
    mutations: DomMutationReport,
    custom: Vec<String>,
    console: Vec<String>,
    default_prevented: bool,
    browser_actions: Vec<BrowserAction>,
    storage_actions: Vec<StorageAction>,
) -> (r: EventDispatchReport)
    ensures
        string_views(r.diagnostics@) == match error {
            Some(e) => seq!["JavaScript event error in "@ + event_type@ + ": "@ + e@],
            None => Seq::<Seq<char>>::empty(),
        } + string_views(mutations.diagnostics@) + string_views(custom@) + string_views(console@),
        r.default_prevented == default_prevented,
        r.browser_actions@ == browser_actions@,
        r.storage_actions@ == storage_actions@,
        r.dirty == mutations.dirty,
{
    let mut diagnostics: Vec<String> = Vec::new();
    match &error {
        Some(e) => {
            let mut m = crate::text::string_from("JavaScript event error in ");
            crate::text::push_str(&mut m, event_type);
            crate::text::push_str(&mut m, ": ");
            crate::text::push_str(&mut m, e.as_str());
            diagnostics.push(m);
        },
        None => {},
    }
    let ghost first = diagnostics@;
    let dirty = mutations.dirty;
    let mut more = mutations.diagnostics;
    let mut custom = custom;
    let mut console = console;
    let ghost b = more@;
    let ghost c = custom@;
    let ghost d = console@;
    diagnostics.append(&mut more);
    diagnostics.append(&mut custom);
    diagnostics.append(&mut console);
    proof {
        assert(diagnostics@ =~= first + b + c + d);
        assert(string_views(diagnostics@) =~= string_views(first) + string_views(b) + string_views(c)
            + string_views(d));
        match error {
            Some(e) => assert(string_views(first) =~= seq!["JavaScript event error in "@ + event_type@ + ": "@ + e@]),
            None => assert(string_views(first) =~= Seq::<Seq<char>>::empty()),
        }
    }
    EventDispatchReport { diagnostics, default_prevented, browser_actions, storage_actions, dirty }
}


/// The JSON escape of one character, as `serde_json` writes it in a string:
/// `"` and the backslash behind a backslash, the short escapes of
/// backspace, tab, line feed, form feed and carriage return, other control
/// characters as a backslash, `u00` and two lowercase hex digits, anything
/// else as it is.
pub open spec fn json_escape(c: char) -> Seq<char> {
    let u = c as u32;
    if c == '"' {
        seq!['\\', '"']
    } else if c == '\\' {
        seq!['\\', '\\']
    } else if u == 8 {
        seq!['\\', 'b']
    } else if u == 9 {
        seq!['\\', 't']
    } else if u == 10 {
        seq!['\\', 'n']
    } else if u == 12 {
        seq!['\\', 'f']
    } else if u == 13 {
        seq!['\\', 'r']
    } else if u < 32 {
        seq!['\\', 'u', '0', '0', hex_digit(u / 16), hex_digit(u % 16)]
    } else {
        seq![c]
    }
}

/// The lowercase hex digit of `v` (below 16).
pub open spec fn hex_digit(v: u32) -> char {
    if v < 10 {
        (48 + v) as char
    } else {
        (87 + v) as char
    }
}

/// The escapes of the characters of `s`, in order.
pub open spec fn json_escaped(s: Seq<char>) -> Seq<char>
    decreases s.len(),
{
    if s.len() == 0 {
        Seq::empty()
    } else {
        json_escaped(s.drop_last()) + json_escape(s.last())
    }
}

/// `s` as a JSON string literal, as `serde_json::to_string` writes a `str`.
pub open spec fn json_quoted(s: Seq<char>) -> Seq<char> {
    seq!['"'] + json_escaped(s) + seq!['"']
}

/// Writes `text` as a JSON string literal.
pub fn json_string(text: &str) -> (r: String)
    ensures
        r@ == json_quoted(text@),
{
    let v = crate::text::chars_of(text);
    let mut out = crate::text::string_from("\"");
    let mut i: usize = 0;
    proof {
        reveal_strlit("\"");
        assert(v@.take(0) =~= Seq::<char>::empty());
        assert(json_escaped(v@.take(0)) =~= Seq::<char>::empty());
        assert(out@ =~= seq!['"'] + json_escaped(v@.take(0)));
    }
    while i < v.len()
        invariant
            i <= v@.len(),
            v@ == text@,
            out@ == seq!['"'] + json_escaped(v@.take(i as int)),
        decreases v@.len() - i,
    {
        let c = v[i];
        let u = c as u32;
        let ghost before = out@;
        if c == '"' {
            crate::text::push_str(&mut out, "\\\"");
        } else if c == '\\' {
            crate::text::push_str(&mut out, "\\\\");
        } else if u == 8 {
            crate::text::push_str(&mut out, "\\b");
        } else if u == 9 {
            crate::text::push_str(&mut out, "\\t");
        } else if u == 10 {
            crate::text::push_str(&mut out, "\\n");
        } else if u == 12 {
            crate::text::push_str(&mut out, "\\f");
        } else if u == 13 {
            crate::text::push_str(&mut out, "\\r");
        } else if u < 32 {
            crate::text::push_str(&mut out, "\\u00");
            crate::text::push_char(&mut out, hex_char(u / 16));
            crate::text::push_char(&mut out, hex_char(u % 16));
        } else {
            crate::text::push_char(&mut out, c);
        }
        proof {
            reveal_strlit("\\\"");
            reveal_strlit("\\\\");
            reveal_strlit("\\b");
            reveal_strlit("\\t");
            reveal_strlit("\\n");
            reveal_strlit("\\f");
            reveal_strlit("\\r");
            reveal_strlit("\\u00");
            let t = v@.take(i + 1);
            assert(t.drop_last() =~= v@.take(i as int));
            assert(t.last() == c);
            assert(out@ =~= before + json_escape(c));
        }
        i += 1;
    }
    crate::text::push_str(&mut out, "\"");
    proof {
        reveal_strlit("\"");
        assert(v@.take(v@.len() as int) =~= v@);
    }
    out
}

/// The lowercase hex digit of `v` (below 16).
fn hex_char(v: u32) -> (c: char)
    requires
        v < 16,
    ensures
        c == hex_digit(v),
{
    if v < 10 {
        char_from(48 + v)
    } else {
        char_from(87 + v)
    }
}

/// The character with code `u` (an ASCII code).
fn char_from(u: u32) -> (c: char)
    requires
        u < 128,
    ensures
        c == u as char,
{
    let b: u8 = u as u8;
    b as char
}

/// The text before a timer callback's JSON in the script that runs it.
pub open spec fn timer_source_head() -> Seq<char> {
    "\nvar __webby_timer_callback = eval(\"(\" + "@
}

/// The text after a timer callback's JSON in the script that runs it.
pub open spec fn timer_source_tail() -> Seq<char> {
    " + \")\");\nif (typeof __webby_timer_callback !== \"function\") {\n  throw new Error(\"timer callback is not a function\");\n}\n__webby_timer_callback.call(window);\n"@
}

/// The script that runs a stored timer callback: the callback's source,
/// as a JSON string, evaluated to a function and called with `window`.
pub fn timer_callback_source(callback: &str) -> (r: String)
    ensures
        r@ == timer_source_head() + json_quoted(callback@) + timer_source_tail(),
{
    let mut out = crate::text::string_from("\nvar __webby_timer_callback = eval(\"(\" + ");
    let q = json_string(callback);
    crate::text::push_str(&mut out, q.as_str());
    crate::text::push_str(&mut out, " + \")\");\nif (typeof __webby_timer_callback !== \"function\") {\n  throw new Error(\"timer callback is not a function\");\n}\n__webby_timer_callback.call(window);\n");
    out
}

/// The parts of the script that dispatches an event, around the handlers'
/// JSON, the event type's JSON and the target id.
pub open spec fn dispatch_source_parts() -> (Seq<char>, Seq<char>, Seq<char>, Seq<char>) {
    ("\nvar __webby_registered_event_handlers = "@, ";\nvar __webby_default_prevented = false;\nfunction __webby_event_path(targetId) {\n  var path = [];\n  var node = __webby_nodes[String(targetId)];\n  while (node) {\n    path.push(node.id);\n    node = __webby_nodes[node.parent];\n  }\n  return path;\n}\nfunction __webby_dispatch_registered_event(eventType, targetId) {\n  var path = __webby_event_path(targetId);\n  for (var pathIndex = 0; pathIndex < path.length; pathIndex = pathIndex + 1) {\n    var currentId = path[pathIndex];\n    for (var handlerIndex = 0; handlerIndex < __webby_registered_event_handlers.length; handlerIndex = handlerIndex + 1) {\n      var registration = __webby_registered_event_handlers[handlerIndex];\n      if (registration.id === currentId && registration.event_type === eventType) {\n        var event = {\n          type: eventType,\n          target: __webby_ref(String(targetId)),\n          currentTarget: __webby_ref(currentId),\n          defaultPrevented: false,\n          preventDefault: function() {\n            this.defaultPrevented = true;\n            __webby_default_prevented = true;\n          }\n        };\n        var handler = eval(\"(\" + registration.handler + \")\");\n        handler.call(__webby_ref(currentId), event);\n      }\n    }\n  }\n}\n__webby_dispatch_registered_event("@, ", \""@, "\");\n"@)
}

/// The script that dispatches an event of `event_type` at node `target` to
/// the registered handlers whose JSON is `handler_json`: along the path from
/// the target up, each handler registered for the event on a node is called
/// with an event object whose `preventDefault` is recorded.
pub fn event_dispatch_source(handler_json: &str, event_type: &str, target: u64) -> (r: String)
    ensures
        r@ == dispatch_source_parts().0 + handler_json@ + dispatch_source_parts().1 + json_quoted(
            event_type@,
        ) + dispatch_source_parts().2 + crate::text::decimal(target as nat) + dispatch_source_parts().3,
{
    let mut out = crate::text::string_from("\nvar __webby_registered_event_handlers = ");
    crate::text::push_str(&mut out, handler_json);
    crate::text::push_str(&mut out, ";\nvar __webby_default_prevented = false;\nfunction __webby_event_path(targetId) {\n  var path = [];\n  var node = __webby_nodes[String(targetId)];\n  while (node) {\n    path.push(node.id);\n    node = __webby_nodes[node.parent];\n  }\n  return path;\n}\nfunction __webby_dispatch_registered_event(eventType, targetId) {\n  var path = __webby_event_path(targetId);\n  for (var pathIndex = 0; pathIndex < path.length; pathIndex = pathIndex + 1) {\n    var currentId = path[pathIndex];\n    for (var handlerIndex = 0; handlerIndex < __webby_registered_event_handlers.length; handlerIndex = handlerIndex + 1) {\n      var registration = __webby_registered_event_handlers[handlerIndex];\n      if (registration.id === currentId && registration.event_type === eventType) {\n        var event = {\n          type: eventType,\n          target: __webby_ref(String(targetId)),\n          currentTarget: __webby_ref(currentId),\n          defaultPrevented: false,\n          preventDefault: function() {\n            this.defaultPrevented = true;\n            __webby_default_prevented = true;\n          }\n        };\n        var handler = eval(\"(\" + registration.handler + \")\");\n        handler.call(__webby_ref(currentId), event);\n      }\n    }\n  }\n}\n__webby_dispatch_registered_event(");
    let q = json_string(event_type);
    crate::text::push_str(&mut out, q.as_str());
    crate::text::push_str(&mut out, ", \"");
    let d = crate::text::decimal_string(target);
    crate::text::push_str(&mut out, d.as_str());
    crate::text::push_str(&mut out, "\");\n");
    out
}

} // verus!
