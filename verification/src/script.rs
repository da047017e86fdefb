//! Script classification and the subset of ES module syntax that script
//! loading understands: static imports, `export` prefixes, and rejection of
//! dynamic imports.

use vstd::prelude::*;
use crate::dom::Document;
use crate::extract::{ContentModel, ScriptContent, ScriptElement, ScriptModel};
use crate::js::{ScriptSource, string_views};
use crate::weburl::WebUrl;
use crate::text::{chars_of, eq_ignore_case, split_on, starts_with, trim};

verus! {

/// Maximum JavaScript source bytes retained by script coordination.
pub const MAX_SCRIPT_SOURCE_BYTES: usize = 262144;

/// Ordered scripts and non-fatal diagnostics for a document.
#[derive(Debug, Clone, PartialEq, Eq)]
pub struct LoadedScripts {
    /// Script sources in deterministic execution order.
    pub scripts: Vec<ScriptSource>,
    /// Script loading/parsing diagnostics.
    pub diagnostics: Vec<String>,
}

/// How a `script` element runs.
#[derive(Debug, Clone, PartialEq, Eq)]
pub enum ScriptKind {
    /// A classic script.
    Classic,
    /// An ES module.
    Module,
    /// An unsupported `type`, as written (trimmed).
    Unsupported(String),
}

/// `ScriptKind` as plain values.
pub enum KindOf {
    /// Classic.
    Classic,
    /// Module.
    Module,
    /// Unsupported type.
    Unsupported(Seq<char>),
}

impl View for ScriptKind {
    type V = KindOf;

    open spec fn view(&self) -> KindOf {
        match self {
            ScriptKind::Classic => KindOf::Classic,
            ScriptKind::Module => KindOf::Module,
            ScriptKind::Unsupported(t) => KindOf::Unsupported(t@),
        }
    }
}

/// The kind of a script by its `type` attribute: none or empty and
/// `text/javascript` are classic, `module` is a module (any case).
pub open spec fn script_kind_of(t: Option<Seq<char>>) -> KindOf {
    match t {
        None => KindOf::Classic,
        Some(raw) => {
            let v = trim(raw);
            if v.len() == 0 || eq_ignore_case(v, "text/javascript"@) {
                KindOf::Classic
            } else if eq_ignore_case(v, "module"@) {
                KindOf::Module
            } else {
                KindOf::Unsupported(v)
            }
        },
    }
}

/// The kind of a script by its `type` attribute.
pub fn script_type(raw_type: Option<&str>) -> (r: ScriptKind)
    ensures
        r@ == script_kind_of(
            match raw_type {
                Some(t) => Some(t@),
                None => None,
            },
        ),
{
    match raw_type {
        None => ScriptKind::Classic,
        Some(raw) => {
            let v = crate::text::trimmed_chars(raw);
            if v.len() == 0 || crate::text::vec_eq_ignore_case(&v, "text/javascript") {
                ScriptKind::Classic
            } else if crate::text::vec_eq_ignore_case(&v, "module") {
                ScriptKind::Module
            } else {
                ScriptKind::Unsupported(crate::text::string_of(&v))
            }
        },
    }
}

/// The text between the quote that starts `v` (trimmed) and the next
/// occurrence of the same quote.
pub open spec fn quoted_of(v: Seq<char>) -> Option<Seq<char>> {
    let t = trim(v);
    if t.len() == 0 || !(t[0] == '\'' || t[0] == '"') {
        None
    } else {
        match crate::text::find_char_from(t, t[0], 1) {
            Some(e) => Some(t.subrange(1, e)),
            None => None,
        }
    }
}

/// The text between the quote that starts `v` and the next same quote.
pub fn quoted(v: &Vec<char>) -> (r: Option<Vec<char>>)
    ensures
        match r {
            Some(x) => quoted_of(v@) == Some(x@),
            None => quoted_of(v@) is None,
        },
{
    let t = crate::text::trim_vec(v);
    if t.len() == 0 || !(t[0] == '\'' || t[0] == '"') {
        return None;
    }
    match crate::text::find_char_exec(&t, t[0], 1) {
        Some(e) => {
            proof {
                crate::text::lemma_find_char(t@, t@[0], 1);
            }
            Some(crate::text::slice_of(&t, 1, e))
        },
        None => None,
    }
}

/// A module line without a leading `export default ` or `export `.
pub open spec fn strip_export_of(line: Seq<char>) -> Seq<char> {
    if starts_with(line, "export default "@) {
        line.subrange(15, line.len() as int)
    } else if starts_with(line, "export "@) {
        line.subrange(7, line.len() as int)
    } else {
        line
    }
}

/// A module line without a leading `export default ` or `export `.
pub fn strip_export(line: &Vec<char>) -> (r: Vec<char>)
    ensures
        r@ == strip_export_of(line@),
{
    proof {
        reveal_strlit("export default ");
        reveal_strlit("export ");
    }
    if crate::text::starts_with_at(line, 0, "export default ") {
        proof {
            assert(crate::text::occurs_at(line@, "export default "@, 0) == starts_with(
                line@,
                "export default "@,
            ));
        }
        crate::text::slice_of(line, 15, line.len())
    } else if crate::text::starts_with_at(line, 0, "export ") {
        proof {
            assert(crate::text::occurs_at(line@, "export "@, 0) == starts_with(line@, "export "@));
            assert(crate::text::occurs_at(line@, "export default "@, 0) == starts_with(
                line@,
                "export default "@,
            ));
        }
        crate::text::slice_of(line, 7, line.len())
    } else {
        proof {
            assert(crate::text::occurs_at(line@, "export "@, 0) == starts_with(line@, "export "@));
            assert(crate::text::occurs_at(line@, "export default "@, 0) == starts_with(
                line@,
                "export default "@,
            ));
        }
        line.clone()
    }
}

/// The last start of `p` in `s` at or before `j`.
pub open spec fn rfind_at_or_before(s: Seq<char>, p: Seq<char>, j: int) -> Option<int>
    decreases j + 1,
{
    if j < 0 {
        None
    } else if crate::text::occurs_at(s, p, j) {
        Some(j)
    } else {
        rfind_at_or_before(s, p, j - 1)
    }
}

/// The last occurrence of `p` in `s` (`str::rfind`).
pub open spec fn rfind(s: Seq<char>, p: Seq<char>) -> Option<int> {
    rfind_at_or_before(s, p, s.len() - p.len())
}

/// Bounds of `rfind_at_or_before`.
pub proof fn lemma_rfind(s: Seq<char>, p: Seq<char>, j: int)
    requires
        j <= s.len() - p.len(),
    ensures
        rfind_at_or_before(s, p, j) matches Some(k) ==> 0 <= k <= j && k + p.len() <= s.len(),
    decreases j + 1,
{
    if j >= 0 && !crate::text::occurs_at(s, p, j) {
        lemma_rfind(s, p, j - 1);
    }
}

/// The target of a static `import` line: `import 'x'` or
/// `import … from 'x'` (trailing semicolons ignored).
pub open spec fn import_target_of(line: Seq<char>) -> Option<Seq<char>> {
    if starts_with(line, "import "@) {
        let t0 = trim(line.subrange(7, line.len() as int));
        let t = trim(t0.subrange(0, crate::text::skip_char_back(t0, ';', 0, t0.len() as int)));
        if quoted_of(t) is Some {
            quoted_of(t)
        } else {
            match rfind(t, " from "@) {
                Some(k) => quoted_of(trim(t.subrange(k + 6, t.len() as int))),
                None => None,
            }
        }
    } else {
        None
    }
}

/// The target of a static `import` line.
pub fn static_import_target(line: &Vec<char>) -> (r: Option<Vec<char>>)
    ensures
        match r {
            Some(x) => import_target_of(line@) == Some(x@),
            None => import_target_of(line@) is None,
        },
{
    proof {
        reveal_strlit("import ");
        reveal_strlit(" from ");
    }
    if !crate::text::starts_with_at(line, 0, "import ") {
        proof {
            assert(crate::text::occurs_at(line@, "import "@, 0) == starts_with(line@, "import "@));
        }
        return None;
    }
    proof {
        assert(crate::text::occurs_at(line@, "import "@, 0) == starts_with(line@, "import "@));
    }
    let t0 = crate::text::trim_vec(&crate::text::slice_of(line, 7, line.len()));
    let mut e = t0.len();
    while 0 < e && t0[e - 1] == ';'
        invariant
            e <= t0@.len(),
            crate::text::skip_char_back(t0@, ';', 0, e as int) == crate::text::skip_char_back(
                t0@,
                ';',
                0,
                t0@.len() as int,
            ),
        decreases e,
    {
        e -= 1;
    }
    let t = crate::text::trim_vec(&crate::text::slice_of(&t0, 0, e));
    let q = quoted(&t);
    if q.is_some() {
        return q;
    }
    let from = chars_of(" from ");
    if t.len() < 6 {
        proof {
            assert(rfind(t@, " from "@) is None);
        }
        return None;
    }
    proof {
        assert(t0@ == trim(line@.subrange(7, line@.len() as int)));
        assert(import_target_of(line@) == match rfind(t@, " from "@) {
            Some(k) => quoted_of(trim(t@.subrange(k + 6, t@.len() as int))),
            None => None,
        });
    }
    let mut j = t.len() - 6;
    loop
        invariant
            t.len() >= 6,
            j <= t@.len() - 6,
            import_target_of(line@) == match rfind(t@, " from "@) {
                Some(k) => quoted_of(trim(t@.subrange(k + 6, t@.len() as int))),
                None => None,
            },
            from@ == " from "@,
            rfind_at_or_before(t@, " from "@, j as int) == rfind(t@, " from "@),
        decreases j,
    {
        if crate::text::occurs_at_exec(&t, j, &from) {
            let rest = crate::text::trim_vec(&crate::text::slice_of(&t, j + 6, t.len()));
            return quoted(&rest);
        }
        if j == 0 {
            proof {
                assert(rfind_at_or_before(t@, " from "@, -1) is None);
            }
            return None;
        }
        j -= 1;
    }
}

/// The lines of `s` as `str::lines` yields them: split at `\n`, a `\r`
/// before a `\n` removed, and no empty last line after a final `\n`.
pub open spec fn lines(s: Seq<char>) -> Seq<Seq<char>> {
    let ps = split_on(s, '\n');
    let n = if ps.last().len() == 0 {
        ps.len() - 1
    } else {
        ps.len() as int
    };
    Seq::new(
        n as nat,
        |i: int|
            if i < ps.len() - 1 && ps[i].len() > 0 && ps[i].last() == '\r' {
                ps[i].drop_last()
            } else {
                ps[i]
            },
    )
}

/// The lines of `v`.
pub fn lines_exec(v: &Vec<char>) -> (r: Vec<Vec<char>>)
    ensures
        r@.len() == lines(v@).len(),
        forall|i: int| 0 <= i < r@.len() ==> #[trigger] r@[i]@ == lines(v@)[i],
{
    let ps = crate::text::split_on_exec(v, '\n');
    let ghost sp = split_on(v@, '\n');
    proof {
        crate::text::lemma_split_on_len(v@, '\n');
        assert(ps@[ps@.len() - 1]@ == sp.last());
    }
    let n = if ps[ps.len() - 1].len() == 0 {
        ps.len() - 1
    } else {
        ps.len()
    };
    let mut out: Vec<Vec<char>> = Vec::new();
    let mut i: usize = 0;
    while i < n
        invariant
            i <= n,
            n <= ps@.len(),
            ps@.len() == sp.len(),
            sp == split_on(v@, '\n'),
            forall|k: int| 0 <= k < ps@.len() ==> #[trigger] ps@[k]@ == sp[k],
            n == lines(v@).len(),
            out@.len() == i,
            forall|k: int| 0 <= k < i ==> #[trigger] out@[k]@ == lines(v@)[k],
        decreases n - i,
    {
        let p = &ps[i];
        proof {
            assert(ps@[i as int]@ == sp[i as int]);
        }
        let line = if i + 1 < ps.len() && p.len() > 0 && p[p.len() - 1] == '\r' {
            crate::text::slice_of(p, 0, p.len() - 1)
        } else {
            p.clone()
        };
        proof {
            assert(line@ =~= lines(v@)[i as int]);
        }
        out.push(line);
        i += 1;
    }
    out
}

/// A module's static imports, its code without import lines and with
/// `export` prefixes stripped, and whether it is supported.
#[derive(Debug, Clone, PartialEq, Eq)]
pub struct ParsedModule {
    /// Import targets in source order.
    pub imports: Vec<String>,
    /// Remaining code, one trimmed line per line.
    pub code: String,
    /// Whether every import could be read.
    pub supported: bool,
}

/// Module parsing state as plain values: imports, code, whether still
/// supported, and diagnostics.
pub struct ModuleState {
    /// Imports so far.
    pub imports: Seq<Seq<char>>,
    /// Code so far.
    pub code: Seq<char>,
    /// Still supported.
    pub supported: bool,
    /// Diagnostics so far.
    pub diagnostics: Seq<Seq<char>>,
}

/// The result of reading the lines `ls` of module `label`: a dynamic
/// `import(` or an unreadable `import` line stops the reading with a
/// diagnostic.
pub open spec fn module_from(ls: Seq<Seq<char>>, label: Seq<char>) -> ModuleState
    decreases ls.len(),
{
    if ls.len() == 0 {
        ModuleState { imports: Seq::empty(), code: Seq::empty(), supported: true, diagnostics: Seq::empty() }
    } else {
        let r = module_from(ls.drop_last(), label);
        let t = trim(ls.last());
        if !r.supported {
            r
        } else if starts_with(t, "import("@) {
            ModuleState {
                supported: false,
                diagnostics: r.diagnostics.push(
                    "JavaScript module "@ + label + " skipped unsupported dynamic import"@,
                ),
                ..r
            }
        } else if starts_with(t, "import"@) {
            match import_target_of(t) {
                Some(x) => ModuleState { imports: r.imports.push(x), ..r },
                None => ModuleState {
                    supported: false,
                    diagnostics: r.diagnostics.push(
                        "JavaScript module "@ + label + " skipped unsupported import syntax"@,
                    ),
                    ..r
                },
            }
        } else {
            ModuleState { code: r.code + strip_export_of(t) + "\n"@, ..r }
        }
    }
}

/// Reads a module: its static imports and its code, diagnostics appended
/// to `diagnostics`.
pub fn parse_module(label: &str, code: &str, diagnostics: &mut Vec<String>) -> (r: ParsedModule)
    ensures
        ({
            let m = module_from(lines(code@), label@);
            &&& crate::js::string_views(r.imports@) == m.imports
            &&& r.code@ == m.code
            &&& r.supported == m.supported
            &&& crate::js::string_views(final(diagnostics)@) == crate::js::string_views(
                old(diagnostics)@,
            ) + m.diagnostics
        }),
{
    let ls = lines_exec(&chars_of(code));
    let ghost all = lines(code@);
    let ghost base = crate::js::string_views(diagnostics@);
    let mut imports: Vec<String> = Vec::new();
    let mut out = String::new();
    let mut i: usize = 0;
    proof {
        assert(all.take(0) =~= Seq::<Seq<char>>::empty());
        assert(crate::js::string_views(imports@) =~= Seq::<Seq<char>>::empty());
        assert(base + Seq::<Seq<char>>::empty() =~= base);
    }
    while i < ls.len()
        invariant
            i <= ls@.len(),
            ls@.len() == all.len(),
            all == lines(code@),
            base == crate::js::string_views(old(diagnostics)@),
            forall|k: int| 0 <= k < ls@.len() ==> #[trigger] ls@[k]@ == all[k],
            module_from(all.take(i as int), label@).supported,
            crate::js::string_views(imports@) == module_from(all.take(i as int), label@).imports,
            out@ == module_from(all.take(i as int), label@).code,
            crate::js::string_views(diagnostics@) == base + module_from(all.take(i as int), label@).diagnostics,
        decreases ls@.len() - i,
    {
        proof {
            assert(all.take(i + 1).drop_last() =~= all.take(i as int));
            assert(all.take(i + 1).last() == ls@[i as int]@);
            reveal_strlit("import(");
            reveal_strlit("import");
        }
        let t = crate::text::trim_vec(&ls[i]);
        let ghost d0 = crate::js::string_views(diagnostics@);
        if crate::text::starts_with_at(&t, 0, "import(") {
            proof {
                assert(crate::text::occurs_at(t@, "import("@, 0) == starts_with(t@, "import("@));
            }
            let mut m = crate::text::string_from("JavaScript module ");
            crate::text::push_str(&mut m, label);
            crate::text::push_str(&mut m, " skipped unsupported dynamic import");
            diagnostics.push(m);
            proof {
                assert(crate::js::string_views(diagnostics@) =~= d0.push(diagnostics@.last()@));
                assert(all.take(ls@.len() as int) =~= all);
                lemma_module_stops(all, label@, i + 1);
            }
            return ParsedModule { imports, code: out, supported: false };
        }
        proof {
            assert(crate::text::occurs_at(t@, "import("@, 0) == starts_with(t@, "import("@));
        }
        if crate::text::starts_with_at(&t, 0, "import") {
            proof {
                assert(crate::text::occurs_at(t@, "import"@, 0) == starts_with(t@, "import"@));
            }
            match static_import_target(&t) {
                Some(x) => {
                    let ghost iv = crate::js::string_views(imports@);
                    imports.push(crate::text::string_of(&x));
                    proof {
                        assert(crate::js::string_views(imports@) =~= iv.push(x@));
                    }
                },
                None => {
                    let mut m = crate::text::string_from("JavaScript module ");
                    crate::text::push_str(&mut m, label);
                    crate::text::push_str(&mut m, " skipped unsupported import syntax");
                    diagnostics.push(m);
                    proof {
                        assert(crate::js::string_views(diagnostics@) =~= d0.push(diagnostics@.last()@));
                        assert(all.take(ls@.len() as int) =~= all);
                        lemma_module_stops(all, label@, i + 1);
                    }
                    return ParsedModule { imports, code: out, supported: false };
                },
            }
        } else {
            proof {
                assert(crate::text::occurs_at(t@, "import"@, 0) == starts_with(t@, "import"@));
            }
            let s = strip_export(&t);
            crate::text::push_str(&mut out, crate::text::string_of(&s).as_str());
            crate::text::push_str(&mut out, "\n");
        }
        i += 1;
    }
    proof {
        assert(all.take(all.len() as int) =~= all);
    }
    ParsedModule { imports, code: out, supported: true }
}

/// Once reading stops, later lines change nothing.
pub proof fn lemma_module_stops(ls: Seq<Seq<char>>, label: Seq<char>, i: int)
    requires
        0 <= i <= ls.len(),
        !module_from(ls.take(i), label).supported,
    ensures
        module_from(ls, label) == module_from(ls.take(i), label),
    decreases ls.len() - i,
{
    if i < ls.len() {
        assert(ls.take(i + 1).drop_last() =~= ls.take(i));
        lemma_module_stops(ls, label, i + 1);
    } else {
        assert(ls.take(i) =~= ls);
    }
}

/// A diagnostic label for a loaded external script: labels of external
/// scripts get the script URL appended.
pub open spec fn label_with_url(label: Seq<char>, url: Seq<char>) -> Seq<char> {
    if starts_with(label, "external script"@) {
        label + " "@ + url
    } else {
        label
    }
}

/// Appends the script URL (as text) to the label of an external script.
pub fn label_for_url(label: String, url_text: &str) -> (r: String)
    ensures
        r@ == label_with_url(label@, url_text@),
{
    proof {
        reveal_strlit("external script");
    }
    let v = chars_of(label.as_str());
    if crate::text::starts_with_at(&v, 0, "external script") {
        proof {
            assert(crate::text::occurs_at(v@, "external script"@, 0) == starts_with(
                label@,
                "external script"@,
            ));
        }
        let mut r = label;
        crate::text::push_str(&mut r, " ");
        crate::text::push_str(&mut r, url_text);
        r
    } else {
        proof {
            assert(crate::text::occurs_at(v@, "external script"@, 0) == starts_with(
                label@,
                "external script"@,
            ));
        }
        label
    }
}

/// The queue a classic script joins: blocking (0), deferred (1) or
/// async (2).
pub open spec fn classic_queue(e: ScriptModel) -> int {
    if e.async_attr {
        2
    } else if e.defer {
        1
    } else {
        0
    }
}

/// The group of an element's scripts: its classic queue, 3 for a module,
/// none for an unsupported type.
pub open spec fn element_group(e: ScriptModel) -> Option<int> {
    match script_kind_of(e.script_type) {
        KindOf::Classic => Some(classic_queue(e)),
        KindOf::Module => Some(3),
        KindOf::Unsupported(_) => None,
    }
}

/// Whether `q` holds scripts of the elements `ix` of `elems`, all of group
/// `g`, in document order (a module's imports may give several scripts).
pub open spec fn queue_of(elems: Seq<ScriptModel>, q: Seq<ScriptSource>, ix: Seq<int>, g: int) -> bool {
    &&& q.len() == ix.len()
    &&& forall|i: int|
        0 <= i < ix.len() ==> 0 <= #[trigger] ix[i] < elems.len() && element_group(elems[ix[i]]) == Some(g)
    &&& forall|i: int, j: int|
        0 <= i < j < ix.len() ==> if g == 3 {
            #[trigger] ix[i] <= #[trigger] ix[j]
        } else {
            ix[i] < ix[j]
        }
}

/// Whether an element is an inline classic script within the size limit.
pub open spec fn kept_inline_classic(e: ScriptModel) -> bool {
    &&& script_kind_of(e.script_type) is Classic
    &&& e.content matches ContentModel::Inline(t) && (vstd::utf8::encode_utf8(t).len() as usize)
        <= MAX_SCRIPT_SOURCE_BYTES
}

/// Whether `q` holds, from element `k`, the source of the inline script
/// `e` unchanged.
pub open spec fn holds_inline(q: Seq<ScriptSource>, ix: Seq<int>, k: int, e: ScriptModel) -> bool {
    exists|i: int|
        0 <= i < ix.len() && #[trigger] ix[i] == k && q[i].label@ == e.label && (e.content matches ContentModel::Inline(t)
            && q[i].code@ == t)
}

/// How loaded scripts are laid out: the blocking classic scripts, then the
/// deferred ones, then the async ones, then the modules, each queue in
/// document order; every inline classic script within the limit is in its
/// queue unchanged.
pub open spec fn scripts_layout(
    elems: Seq<ScriptModel>,
    scripts: Seq<ScriptSource>,
    b: Seq<ScriptSource>,
    d: Seq<ScriptSource>,
    a: Seq<ScriptSource>,
    m: Seq<ScriptSource>,
    bi: Seq<int>,
    di: Seq<int>,
    ai: Seq<int>,
    mi: Seq<int>,
) -> bool {
    &&& scripts == b + d + a + m
    &&& queue_of(elems, b, bi, 0)
    &&& queue_of(elems, d, di, 1)
    &&& queue_of(elems, a, ai, 2)
    &&& queue_of(elems, m, mi, 3)
    &&& forall|k: int|
        0 <= k < elems.len() && #[trigger] kept_inline_classic(elems[k]) ==> {
            &&& classic_queue(elems[k]) == 0 ==> holds_inline(b, bi, k, elems[k])
            &&& classic_queue(elems[k]) == 1 ==> holds_inline(d, di, k, elems[k])
            &&& classic_queue(elems[k]) == 2 ==> holds_inline(a, ai, k, elems[k])
        }
}

/// Whether the texts `new` start with the texts `old`.
pub open spec fn keeps_prefix(new: Seq<String>, old: Seq<String>) -> bool {
    &&& old.len() <= new.len()
    &&& forall|i: int| 0 <= i < old.len() ==> #[trigger] new[i]@ == old[i]@
}

/// The diagnostic of a script over the size limit.
pub open spec fn limit_message(label: Seq<char>, byte_len: nat) -> Seq<char> {
    "JavaScript skipped "@ + label + ": script is "@ + crate::text::decimal(byte_len) + " bytes, limit is "@
        + crate::text::decimal(MAX_SCRIPT_SOURCE_BYTES as nat) + " bytes"@
}

/// Whether a script of `byte_len` bytes is within the limit; if not, its
/// diagnostic is appended.
fn within_limit(diagnostics: &mut Vec<String>, label: &str, byte_len: usize) -> (b: bool)
    ensures
        b == (byte_len <= MAX_SCRIPT_SOURCE_BYTES),
        keeps_prefix(final(diagnostics)@, old(diagnostics)@),
        b ==> final(diagnostics)@ == old(diagnostics)@,
        !b ==> final(diagnostics)@.len() == old(diagnostics)@.len() + 1 && final(diagnostics)@.take(
            old(diagnostics)@.len() as int,
        ) == old(diagnostics)@ && final(diagnostics)@.last()@ == limit_message(label@, byte_len as nat),
{
    if byte_len <= MAX_SCRIPT_SOURCE_BYTES {
        return true;
    }
    let mut m = crate::text::string_from("JavaScript skipped ");
    crate::text::push_str(&mut m, label);
    crate::text::push_str(&mut m, ": script is ");
    crate::text::push_str(&mut m, crate::text::decimal_string(byte_len as u64).as_str());
    crate::text::push_str(&mut m, " bytes, limit is ");
    crate::text::push_str(&mut m, crate::text::decimal_string(MAX_SCRIPT_SOURCE_BYTES as u64).as_str());
    crate::text::push_str(&mut m, " bytes");
    let ghost before = diagnostics@;
    diagnostics.push(m);
    proof {
        assert(diagnostics@.take(before.len() as int) =~= before);
    }
    false
}

/// What module loading keeps between modules: diagnostics, the scripts of
/// each module URL already loaded (none when it failed), and the URLs being
/// loaded.
struct ModuleLoading {
    diagnostics: Vec<String>,
    cache: Vec<(String, Option<Vec<ScriptSource>>)>,
    visiting: Vec<String>,
}

/// Script sources as plain values: labels and codes.
pub open spec fn source_views(s: Seq<ScriptSource>) -> Seq<(Seq<char>, Seq<char>)> {
    Seq::new(s.len(), |i: int| (s[i].label@, s[i].code@))
}

/// Cached module entries as plain values.
pub open spec fn cache_views(c: Seq<(String, Option<Vec<ScriptSource>>)>) -> Seq<
    (Seq<char>, Option<Seq<(Seq<char>, Seq<char>)>>),
> {
    Seq::new(
        c.len(),
        |i: int|
            (
                c[i].0@,
                match c[i].1 {
                    Some(v) => Some(source_views(v@)),
                    None => None,
                },
            ),
    )
}

/// `texts` without the ones equal to `key`, in order.
pub open spec fn without_text(texts: Seq<Seq<char>>, key: Seq<char>) -> Seq<Seq<char>>
    decreases texts.len(),
{
    if texts.len() == 0 {
        texts
    } else {
        let rest = without_text(texts.drop_last(), key);
        if texts.last() == key {
            rest
        } else {
            rest.push(texts.last())
        }
    }
}

/// Removing a text that does not occur changes nothing; removing it after
/// adding it undoes the addition.
proof fn lemma_without_absent(texts: Seq<Seq<char>>, key: Seq<char>)
    requires
        !texts.contains(key),
    ensures
        without_text(texts, key) == texts,
        without_text(texts.push(key), key) == texts,
    decreases texts.len(),
{
    if texts.len() > 0 {
        assert(!texts.drop_last().contains(key)) by {
            if texts.drop_last().contains(key) {
                let j = choose|j: int| 0 <= j < texts.drop_last().len() && texts.drop_last()[j] == key;
                assert(texts[j] == key);
            }
        }
        lemma_without_absent(texts.drop_last(), key);
        assert(texts.last() != key) by {
            assert(texts[texts.len() - 1] == texts.last());
        }
        assert(texts.drop_last().push(texts.last()) =~= texts);
    }
    assert(texts.push(key).drop_last() =~= texts);
}

/// The position of `key` among the cached module URLs: the first entry
/// for it, if there is one.
fn cache_index(cache: &Vec<(String, Option<Vec<ScriptSource>>)>, key: &Vec<char>) -> (r: Option<usize>)
    ensures
        match r {
            Some(i) => i < cache@.len() && cache@[i as int].0@ == key@ && forall|j: int|
                0 <= j < i ==> (#[trigger] cache@[j]).0@ != key@,
            None => forall|j: int| 0 <= j < cache@.len() ==> (#[trigger] cache@[j]).0@ != key@,
        },
{
    let mut i: usize = 0;
    while i < cache.len()
        invariant
            i <= cache@.len(),
            forall|j: int| 0 <= j < i ==> (#[trigger] cache@[j]).0@ != key@,
        decreases cache@.len() - i,
    {
        if crate::text::vec_eq(&chars_of(cache[i].0.as_str()), key) {
            return Some(i);
        }
        i += 1;
    }
    None
}

/// Whether `key` is being loaded.
fn is_visiting(visiting: &Vec<String>, key: &Vec<char>) -> (b: bool)
    ensures
        b == string_views(visiting@).contains(key@),
{
    let mut i: usize = 0;
    while i < visiting.len()
        invariant
            i <= visiting@.len(),
            forall|j: int| 0 <= j < i ==> (#[trigger] visiting@[j])@ != key@,
        decreases visiting@.len() - i,
    {
        if crate::text::vec_eq(&chars_of(visiting[i].as_str()), key) {
            proof {
                assert(string_views(visiting@)[i as int] == key@);
            }
            return true;
        }
        i += 1;
    }
    proof {
        if string_views(visiting@).contains(key@) {
            let j = choose|j: int| 0 <= j < string_views(visiting@).len() && string_views(visiting@)[j] == key@;
            assert(visiting@[j]@ == key@);
        }
    }
    false
}

/// `visiting` without `key`.
fn without(visiting: &Vec<String>, key: &Vec<char>) -> (r: Vec<String>)
    ensures
        string_views(r@) == without_text(string_views(visiting@), key@),
{
    let mut out: Vec<String> = Vec::new();
    let mut i: usize = 0;
    proof {
        assert(string_views(visiting@).take(0) =~= Seq::<Seq<char>>::empty());
        assert(string_views(out@) =~= Seq::<Seq<char>>::empty());
    }
    while i < visiting.len()
        invariant
            i <= visiting@.len(),
            string_views(out@) == without_text(string_views(visiting@).take(i as int), key@),
        decreases visiting@.len() - i,
    {
        let ghost before = string_views(out@);
        proof {
            let t = string_views(visiting@).take(i + 1);
            assert(t.drop_last() =~= string_views(visiting@).take(i as int));
            assert(t.last() == visiting@[i as int]@);
        }
        if !crate::text::vec_eq(&chars_of(visiting[i].as_str()), key) {
            out.push(visiting[i].clone());
            proof {
                assert(string_views(out@) =~= before.push(visiting@[i as int]@));
            }
        }
        i += 1;
    }
    proof {
        assert(string_views(visiting@).take(visiting@.len() as int) =~= string_views(visiting@));
    }
    out
}

/// Copies of script sources.
fn copy_sources(sources: &Vec<ScriptSource>) -> (r: Vec<ScriptSource>)
    ensures
        source_views(r@) == source_views(sources@),
{
    let mut out: Vec<ScriptSource> = Vec::new();
    let mut i: usize = 0;
    while i < sources.len()
        invariant
            i <= sources@.len(),
            source_views(out@) == source_views(sources@).take(i as int),
        decreases sources@.len() - i,
    {
        let ghost before = source_views(out@);
        out.push(ScriptSource::new(sources[i].label.as_str(), sources[i].code.as_str()));
        proof {
            assert(source_views(out@) =~= before.push((sources@[i as int].label@, sources@[i as int].code@)));
            assert(source_views(sources@).take(i + 1) =~= source_views(sources@).take(i as int).push(
                (sources@[i as int].label@, sources@[i as int].code@),
            ));
        }
        i += 1;
    }
    proof {
        assert(source_views(sources@).take(sources@.len() as int) =~= source_views(sources@));
    }
    out
}

/// Appends `more` to `out`.
fn append_sources(out: &mut Vec<ScriptSource>, more: Vec<ScriptSource>)
    ensures
        final(out)@ == old(out)@ + more@,
{
    let mut rest = more;
    out.append(&mut rest);
}

/// Whether a cache entry holds `r`: the scripts themselves, or none for a
/// module that could not be loaded.
pub open spec fn cached_as(entry: Option<Seq<(Seq<char>, Seq<char>)>>, r: Seq<ScriptSource>) -> bool {
    match entry {
        Some(v) => v == source_views(r),
        None => r.len() == 0,
    }
}

/// What module loading keeps from `before` to `after`: the diagnostics
/// already reported, the cache entries already made, and the URLs being
/// loaded.
spec fn loading_keeps(after: ModuleLoading, before: ModuleLoading) -> bool {
    &&& keeps_prefix(after.diagnostics@, before.diagnostics@)
    &&& before.cache@.len() <= after.cache@.len()
    &&& cache_views(after.cache@).take(before.cache@.len() as int) == cache_views(before.cache@)
    &&& string_views(after.visiting@) == string_views(before.visiting@)
}

/// `loading_keeps` is transitive.
proof fn lemma_loading_keeps_trans(a: ModuleLoading, b: ModuleLoading, c: ModuleLoading)
    requires
        loading_keeps(b, a),
        loading_keeps(c, b),
    ensures
        loading_keeps(c, a),
{
    assert(cache_views(c.cache@).take(a.cache@.len() as int) =~= cache_views(b.cache@).take(
        a.cache@.len() as int,
    ));
}

/// The label of a module loaded from a URL.
fn module_label(final_url: &WebUrl) -> (r: String)
    ensures
        r@ == "module "@ + final_url@.text,
{
    let mut label = crate::text::string_from("module ");
    crate::text::push_str(&mut label, final_url.as_str());
    label
}

/// The scripts of a module's code: its imports' scripts, dependency
/// first, then its own code; none when it is unsupported. `depth` bounds
/// how deeply imports nest.
fn module_sources<L: crate::response::ResourceLoader>(
    state: &mut ModuleLoading,
    loader: Option<&L>,
    label: &str,
    base_url: &WebUrl,
    code: &str,
    depth: usize,
    log: &mut crate::response::LoadLog,
) -> (r: Vec<ScriptSource>)
    requires
        loader is None ==> nothing_cached(old(state).cache@),
    ensures
        loading_keeps(*final(state), *old(state)),
        log_extends(final(log).requested(), old(log).requested()),
        loader is None ==> final(log).requested() == old(log).requested(),
        loader is None ==> nothing_cached(final(state).cache@),
        !module_from(lines(code@), label@).supported ==> r@.len() == 0,
        module_from(lines(code@), label@).supported ==> r@.len() >= 1 && source_views(r@).last() == (
            label@,
            module_from(lines(code@), label@).code,
        ),
        loader is None && module_from(lines(code@), label@).supported ==> r@.len() == 1,
        final(state).diagnostics@.len() >= old(state).diagnostics@.len() + module_from(lines(code@), label@).diagnostics.len(),
        string_views(final(state).diagnostics@).take(
            (old(state).diagnostics@.len() + module_from(lines(code@), label@).diagnostics.len()) as int,
        ) == string_views(old(state).diagnostics@) + module_from(lines(code@), label@).diagnostics,
        !module_from(lines(code@), label@).supported ==> string_views(final(state).diagnostics@)
            == string_views(old(state).diagnostics@) + module_from(lines(code@), label@).diagnostics,
    decreases depth, 0usize,
{
    let ghost start = state.diagnostics@;
    let parsed = parse_module(label, code, &mut state.diagnostics);
    let ghost after_parse = state.diagnostics@;
    proof {
        let now = state.diagnostics@;
        let added = module_from(lines(code@), label@).diagnostics;
        assert(crate::js::string_views(now) == crate::js::string_views(start) + added);
        assert(crate::js::string_views(now).len() == now.len());
        assert(now.len() >= start.len());
        assert forall|i: int| 0 <= i < start.len() implies #[trigger] now[i]@ == start[i]@ by {
            assert(crate::js::string_views(now)[i] == now[i]@);
            assert(crate::js::string_views(start)[i] == start[i]@);
            assert((crate::js::string_views(start) + added)[i] == crate::js::string_views(start)[i]);
        }
    }
    let ghost entry = *old(state);
    proof {
        assert(cache_views(state.cache@).take(entry.cache@.len() as int) =~= cache_views(entry.cache@));
        assert(loading_keeps(*state, entry));
    }
    proof {
        assert(string_views(after_parse).take(after_parse.len() as int) =~= string_views(after_parse));
    }
    if !parsed.supported {
        return Vec::new();
    }
    let mut output: Vec<ScriptSource> = Vec::new();
    let mut i: usize = 0;
    while i < parsed.imports.len()
        invariant
            i <= parsed.imports@.len(),
            loading_keeps(*state, entry),
            keeps_prefix(state.diagnostics@, after_parse),
            loader is None ==> nothing_cached(state.cache@),
            loader is None ==> output@.len() == 0,
            log_extends(log.requested(), old(log).requested()),
            loader is None ==> log.requested() == old(log).requested(),
        decreases parsed.imports@.len() - i,
    {
        let ghost here = *state;
        let ghost log_here = log.requested();
        let import = &parsed.imports[i];
        match base_url.join(import.as_str()) {
            Ok(import_url) => {
                if depth == 0 {
                    let mut m = crate::text::string_from("JavaScript module ");
                    crate::text::push_str(&mut m, label);
                    crate::text::push_str(&mut m, " skipped import ");
                    crate::text::push_str(&mut m, import.as_str());
                    crate::text::push_str(&mut m, ": imports nest too deeply");
                    state.diagnostics.push(m);
                } else {
                    let more = load_module_url(state, loader, &import_url, depth - 1, log);
                    append_sources(&mut output, more);
                }
            },
            Err(_) => {
                let mut m = crate::text::string_from("JavaScript module ");
                crate::text::push_str(&mut m, label);
                crate::text::push_str(&mut m, " skipped invalid import ");
                crate::text::push_str(&mut m, import.as_str());
                state.diagnostics.push(m);
            },
        }
        proof {
            assert(cache_views(here.cache@).take(here.cache@.len() as int) =~= cache_views(here.cache@));
            if state.cache@ == here.cache@ {
                assert(cache_views(state.cache@).take(here.cache@.len() as int) =~= cache_views(here.cache@));
            }
            assert(loading_keeps(*state, here));
            lemma_loading_keeps_trans(entry, here, *state);
            assert forall|q: int| 0 <= q < after_parse.len() implies #[trigger] state.diagnostics@[q]@ == after_parse[q]@ by {
                assert(state.diagnostics@[q]@ == here.diagnostics@[q]@);
            }
            assert forall|q: int| 0 <= q < old(log).requested().len() implies #[trigger] log.requested()[q] == old(log).requested()[q] by {
                assert(log.requested()[q] == log_here[q]);
            }
        }
        i += 1;
    }
    let own = ScriptSource::new(label, parsed.code.as_str());
    output.push(own);
    proof {
        assert(source_views(output@).last() == (own.label@, own.code@));
        assert(string_views(state.diagnostics@).take(after_parse.len() as int) =~= string_views(after_parse));
    }
    output
}

/// Whether the request log `new` starts with the requests `old`.
pub open spec fn log_extends(new: Seq<Seq<char>>, old: Seq<Seq<char>>) -> bool {
    &&& old.len() <= new.len()
    &&& forall|i: int| 0 <= i < old.len() ==> #[trigger] new[i] == old[i]
}

/// Whether no cache entry holds scripts, as when modules are loaded
/// without a resource loader.
spec fn nothing_cached(c: Seq<(String, Option<Vec<ScriptSource>>)>) -> bool {
    forall|i: int| 0 <= i < c.len() ==> (#[trigger] c[i]).1 is None
}

/// The scripts of the module at `module_url`: from the cache when it was
/// loaded before; none, with a diagnostic, when it is already being loaded
/// (an import cycle) or cannot be loaded.
fn load_module_url<L: crate::response::ResourceLoader>(
    state: &mut ModuleLoading,
    loader: Option<&L>,
    module_url: &WebUrl,
    depth: usize,
    log: &mut crate::response::LoadLog,
) -> (r: Vec<ScriptSource>)
    requires
        loader is None ==> nothing_cached(old(state).cache@),
    ensures
        loading_keeps(*final(state), *old(state)),
        log_extends(final(log).requested(), old(log).requested()),
        loader is None ==> final(log).requested() == old(log).requested(),
        loader is None ==> nothing_cached(final(state).cache@),
        loader is None ==> r@.len() == 0 && final(state).diagnostics@.len() <= old(state).diagnostics@.len() + 1,
        (exists|i: int|
            0 <= i < final(state).cache@.len() && cached_as(
                #[trigger] cache_views(final(state).cache@)[i].1,
                r@,
            )) || (r@.len() == 0 && final(state).diagnostics@.len() == old(state).diagnostics@.len() + 1
            && final(state).cache@ == old(state).cache@),
    decreases depth, 1usize,
{
    let ghost entry = *old(state);
    let key = crate::text::string_from(module_url.as_str());
    let key_chars = chars_of(key.as_str());
    proof {
        assert(cache_views(state.cache@).take(state.cache@.len() as int) =~= cache_views(state.cache@));
    }
    match cache_index(&state.cache, &key_chars) {
        Some(i) => {
            let r = match &state.cache[i].1 {
                Some(sources) => copy_sources(sources),
                None => Vec::new(),
            };
            proof {
                assert(cached_as(cache_views(state.cache@)[i as int].1, r@));
            }
            return r;
        },
        None => {},
    }
    if is_visiting(&state.visiting, &key_chars) {
        let mut m = crate::text::string_from("JavaScript module cycle detected at ");
        crate::text::push_str(&mut m, key.as_str());
        state.diagnostics.push(m);
        return Vec::new();
    }
    state.visiting.push(key.clone());
    proof {
        assert(string_views(state.visiting@) =~= string_views(entry.visiting@).push(key_chars@));
        lemma_without_absent(string_views(entry.visiting@), key_chars@);
    }
    let l = match loader {
        Some(l) => l,
        None => {
            let mut m = crate::text::string_from("JavaScript module ");
            crate::text::push_str(&mut m, key.as_str());
            crate::text::push_str(&mut m, " skipped: external module loading requires a resource loader");
            state.diagnostics.push(m);
            state.visiting = without(&state.visiting, &key_chars);
            state.cache.push((key, None));
            proof {
                assert(cache_views(state.cache@).take(entry.cache@.len() as int) =~= cache_views(entry.cache@));
                assert(cached_as(cache_views(state.cache@)[entry.cache@.len() as int].1, Seq::<ScriptSource>::empty()));
            }
            return Vec::new();
        },
    };
    let ghost pushed = *state;
    proof {
        assert(cache_views(pushed.cache@).take(pushed.cache@.len() as int) =~= cache_views(pushed.cache@));
    }
    let ghost log0 = log.requested();
    let sources = match crate::response::logged_load(l, module_url, log) {
        Ok(response) => {
            if !within_limit(&mut state.diagnostics, key.as_str(), response.bytes.len()) {
                Vec::new()
            } else {
                let code = crate::net::decode_text_utf8(response.bytes.as_slice());
                let label = module_label(&response.final_url);
                module_sources(state, loader, label.as_str(), &response.final_url, code.as_str(), depth, log)
            }
        },
        Err(error) => {
            let mut m = crate::text::string_from("JavaScript module ");
            crate::text::push_str(&mut m, key.as_str());
            crate::text::push_str(&mut m, " could not be loaded: ");
            crate::text::push_str(&mut m, error.message().as_str());
            state.diagnostics.push(m);
            Vec::new()
        },
    };
    proof {
        assert(loading_keeps(*state, pushed));
        assert forall|q: int| 0 <= q < log0.len() implies #[trigger] log.requested()[q] == log0[q] by {
            assert(log.requested()[q] == log0.push(module_url@.text)[q]);
        }
    }
    let ghost loaded = *state;
    state.visiting = without(&state.visiting, &key_chars);
    let copy = copy_sources(&sources);
    state.cache.push((key, Some(copy)));
    proof {
        let n = loaded.cache@.len() as int;
        assert(cache_views(state.cache@).take(n) =~= cache_views(loaded.cache@));
        assert(cache_views(state.cache@).take(entry.cache@.len() as int) =~= cache_views(loaded.cache@).take(
            entry.cache@.len() as int,
        ));
        assert(cache_views(loaded.cache@).take(entry.cache@.len() as int) =~= cache_views(pushed.cache@).take(
            entry.cache@.len() as int,
        ));
        assert(cached_as(cache_views(state.cache@)[n].1, sources@));
    }
    sources
}

/// Resolves a script `src` against the page URL; an invalid one gets a
/// diagnostic.
fn resolve_script_url(
    page_url: &WebUrl,
    diagnostics: &mut Vec<String>,
    label: &str,
    src: &str,
) -> (r: Option<WebUrl>)
    ensures
        keeps_prefix(final(diagnostics)@, old(diagnostics)@),
        r is Some ==> final(diagnostics)@ == old(diagnostics)@,
        r is None ==> final(diagnostics)@.len() == old(diagnostics)@.len() + 1 && final(diagnostics)@.take(
            old(diagnostics)@.len() as int,
        ) == old(diagnostics)@ && final(diagnostics)@.last()@ == invalid_url_message(label@, src@),
        match r {
            Some(u) => crate::weburl::joined_url(page_url@.text, src@) == Ok::<crate::weburl::UrlModel, Seq<char>>(u@),
            None => crate::weburl::joined_url(page_url@.text, src@) is Err,
        },
{
    match page_url.join(src) {
        Ok(u) => Some(u),
        Err(_) => {
            let mut m = crate::text::string_from("JavaScript skipped ");
            crate::text::push_str(&mut m, label);
            crate::text::push_str(&mut m, " ");
            crate::text::push_str(&mut m, src);
            crate::text::push_str(&mut m, ": invalid script URL");
            let ghost before = diagnostics@;
            diagnostics.push(m);
            proof {
                assert(diagnostics@.take(before.len() as int) =~= before);
            }
            None
        },
    }
}

/// Loads an external classic script: its final URL's text and its code.
fn load_external_script<L: crate::response::ResourceLoader>(
    page_url: &WebUrl,
    loader: Option<&L>,
    diagnostics: &mut Vec<String>,
    label: &str,
    src: &str,
    log: &mut crate::response::LoadLog,
) -> (r: Option<(String, String)>)
    ensures
        final(log).requested() == classic_requests(page_url@.text, src@, loader is None, old(log).requested()),
        r matches Some((f, c)) ==> exists|bytes: Seq<u8>|
            bytes.len() <= MAX_SCRIPT_SOURCE_BYTES && #[trigger] crate::net::utf8_lossy(bytes) == c@,
        keeps_prefix(final(diagnostics)@, old(diagnostics)@),
        r is Some ==> final(diagnostics)@ == old(diagnostics)@,
        r is None ==> final(diagnostics)@.len() == old(diagnostics)@.len() + 1 && final(diagnostics)@.take(
            old(diagnostics)@.len() as int,
        ) == old(diagnostics)@,
        loader is None ==> r is None && final(diagnostics)@.last()@ == no_loader_message(label@, src@),
{
    let l = match loader {
        Some(l) => l,
        None => {
            let mut m = crate::text::string_from("JavaScript skipped ");
            crate::text::push_str(&mut m, label);
            crate::text::push_str(&mut m, " ");
            crate::text::push_str(&mut m, src);
            crate::text::push_str(&mut m, ": external script loading requires a resource loader");
            let ghost before = diagnostics@;
            diagnostics.push(m);
            proof {
                assert(diagnostics@.take(before.len() as int) =~= before);
            }
            return None;
        },
    };
    let script_url = match resolve_script_url(page_url, diagnostics, label, src) {
        Some(u) => u,
        None => {
            return None;
        },
    };
    let url_text = crate::text::string_from(script_url.as_str());
    match crate::response::logged_load(l, &script_url, log) {
        Ok(response) => {
            if !within_limit(diagnostics, url_text.as_str(), response.bytes.len()) {
                return None;
            }
            Some(
                (
                    crate::text::string_from(response.final_url.as_str()),
                    crate::net::decode_text_utf8(response.bytes.as_slice()),
                ),
            )
        },
        Err(error) => {
            let mut m = crate::text::string_from("JavaScript skipped ");
            crate::text::push_str(&mut m, label);
            crate::text::push_str(&mut m, " ");
            crate::text::push_str(&mut m, url_text.as_str());
            crate::text::push_str(&mut m, ": failed to load script: ");
            crate::text::push_str(&mut m, error.message().as_str());
            let ghost before = diagnostics@;
            diagnostics.push(m);
            proof {
                assert(diagnostics@.take(before.len() as int) =~= before);
            }
            None
        },
    }
}

/// The source of a classic script element: inline code within the limit
/// as it is; an external script as loaded, labelled with its URL.
fn classic_source<L: crate::response::ResourceLoader>(
    page_url: &WebUrl,
    loader: Option<&L>,
    diagnostics: &mut Vec<String>,
    script: &ScriptElement,
    log: &mut crate::response::LoadLog,
) -> (r: Option<ScriptSource>)
    ensures
        script@.content is Inline ==> final(log).requested() == old(log).requested(),
        script@.content matches ContentModel::External(src) ==> final(log).requested() == classic_requests(
            page_url@.text,
            src,
            loader is None,
            old(log).requested(),
        ),
        script@.content is External ==> (r matches Some(x) ==> loaded_source(script@.label, x.label@, x.code@)),
        keeps_prefix(final(diagnostics)@, old(diagnostics)@),
        script@.content is Inline ==> match r {
            Some(x) => kept_inline_classic_content(script@) && x.label@ == script@.label && (script@.content matches ContentModel::Inline(t) && x.code@ == t),
            None => !kept_inline_classic_content(script@),
        },
        script@.content matches ContentModel::Inline(t) ==> if source_bytes(t) <= MAX_SCRIPT_SOURCE_BYTES {
            final(diagnostics)@ == old(diagnostics)@
        } else {
            appended_one(final(diagnostics)@, old(diagnostics)@, limit_message(script@.label, source_bytes(t) as nat))
        },
        script@.content matches ContentModel::External(src) ==> {
            &&& r is Some ==> final(diagnostics)@ == old(diagnostics)@
            &&& r is None ==> final(diagnostics)@.len() == old(diagnostics)@.len() + 1
            &&& loader is None ==> r is None && appended_one(
                final(diagnostics)@,
                old(diagnostics)@,
                no_loader_message(script@.label, src),
            )
        },
{
    match &script.content {
        ScriptContent::Inline(code) => {
            if !within_limit(diagnostics, script.label.as_str(), code.as_str().len()) {
                return None;
            }
            Some(ScriptSource::new(script.label.as_str(), code.as_str()))
        },
        ScriptContent::External(src) => {
            match load_external_script(page_url, loader, diagnostics, script.label.as_str(), src.as_str(), log) {
                Some((final_url, code)) => {
                    let label = label_for_url(script.label.clone(), final_url.as_str());
                    Some(ScriptSource::new(label.as_str(), code.as_str()))
                },
                None => None,
            }
        },
    }
}

/// Whether an element's inline code is within the size limit.
pub open spec fn kept_inline_classic_content(e: ScriptModel) -> bool {
    e.content matches ContentModel::Inline(t) && (vstd::utf8::encode_utf8(t).len() as usize)
        <= MAX_SCRIPT_SOURCE_BYTES
}

/// The request log after loading the external classic script `src` of
/// the page at `page`: its resolved URL is handed to the loader, when
/// there is a loader and the URL resolves.
pub open spec fn classic_requests(
    page: Seq<char>,
    src: Seq<char>,
    no_loader: bool,
    before: Seq<Seq<char>>,
) -> Seq<Seq<char>> {
    if no_loader {
        before
    } else {
        match crate::weburl::joined_url(page, src) {
            Ok(u) => before.push(u.text),
            Err(_) => before,
        }
    }
}

/// Whether `label` and `code` are what an external script labelled
/// `elem_label` gives once loaded: the label with the script's final URL,
/// and the text of a body within the size limit.
pub open spec fn loaded_source(elem_label: Seq<char>, label: Seq<char>, code: Seq<char>) -> bool {
    &&& exists|f: Seq<char>| #[trigger] label_with_url(elem_label, f) == label
    &&& exists|bytes: Seq<u8>|
        bytes.len() <= MAX_SCRIPT_SOURCE_BYTES && #[trigger] crate::net::utf8_lossy(bytes) == code
}

/// The size in bytes of script text `t`.
pub open spec fn source_bytes(t: Seq<char>) -> usize {
    vstd::utf8::encode_utf8(t).len() as usize
}

/// Whether `new` is `old` with the text `m` appended.
pub open spec fn appended_one(new: Seq<String>, old: Seq<String>, m: Seq<char>) -> bool {
    &&& new.len() == old.len() + 1
    &&& new.take(old.len() as int) == old
    &&& new.last()@ == m
}

/// The diagnostic of an external script met without a resource loader.
pub open spec fn no_loader_message(label: Seq<char>, src: Seq<char>) -> Seq<char> {
    "JavaScript skipped "@ + label + " "@ + src + ": external script loading requires a resource loader"@
}

/// The diagnostic of a script whose `src` does not resolve.
pub open spec fn invalid_url_message(label: Seq<char>, src: Seq<char>) -> Seq<char> {
    "JavaScript skipped "@ + label + " "@ + src + ": invalid script URL"@
}

/// The diagnostic of an element with an unsupported `type`.
pub open spec fn unsupported_message(label: Seq<char>, kind: Seq<char>) -> Seq<char> {
    "JavaScript skipped "@ + label + ": unsupported script type "@ + kind
}

/// Whether element `j` has a script in the queue indexed by `ix`.
pub open spec fn in_queue(ix: Seq<int>, j: int) -> bool {
    exists|i: int| 0 <= i < ix.len() && #[trigger] ix[i] == j
}

/// The classic queue that element `e` belongs to.
pub open spec fn classic_q(
    e: ScriptModel,
    b: Seq<ScriptSource>,
    d: Seq<ScriptSource>,
    a: Seq<ScriptSource>,
) -> Seq<ScriptSource> {
    if classic_queue(e) == 0 {
        b
    } else if classic_queue(e) == 1 {
        d
    } else {
        a
    }
}

/// Whether `q` holds, from element `k`, the loaded external script `e`.
pub open spec fn holds_loaded(q: Seq<ScriptSource>, ix: Seq<int>, k: int, e: ScriptModel) -> bool {
    exists|i: int|
        0 <= i < ix.len() && #[trigger] ix[i] == k && loaded_source(e.label, q[i].label@, q[i].code@)
}

/// The index of the classic queue that element `e` belongs to.
pub open spec fn classic_ix(e: ScriptModel, bi: Seq<int>, di: Seq<int>, ai: Seq<int>) -> Seq<int> {
    if classic_queue(e) == 0 {
        bi
    } else if classic_queue(e) == 1 {
        di
    } else {
        ai
    }
}

/// What script element `e` of the page at `page` adds: the diagnostics
/// `ds`, whether a classic script of it joins its queue (`queued`), the
/// module scripts `mods` (labels and codes), and the URLs `reqs` handed to
/// the loader. `no_loader` tells that no resource loader was given. An external classic script with a loader is
/// queued exactly when it added no diagnostic; which code it has, and
/// what an external module or a module's imports give, depends on what
/// the loader answered.
pub open spec fn element_step(
    page: Seq<char>,
    e: ScriptModel,
    ds: Seq<Seq<char>>,
    queued: bool,
    mods: Seq<(Seq<char>, Seq<char>)>,
    reqs: Seq<Seq<char>>,
    no_loader: bool,
) -> bool {
    &&& match script_kind_of(e.script_type) {
        KindOf::Unsupported(_) => reqs.len() == 0,
        KindOf::Classic => match e.content {
            ContentModel::Inline(_) => reqs.len() == 0,
            ContentModel::External(src) => reqs == classic_requests(page, src, no_loader, Seq::empty()),
        },
        KindOf::Module => {
            &&& no_loader ==> reqs.len() == 0
            &&& match e.content {
                ContentModel::Inline(t) => source_bytes(t) > MAX_SCRIPT_SOURCE_BYTES ==> reqs.len() == 0,
                ContentModel::External(src) => crate::weburl::joined_url(page, src) is Err ==> reqs.len() == 0,
            }
        },
    }
    &&& match script_kind_of(e.script_type) {
        KindOf::Unsupported(t) => ds == seq![unsupported_message(e.label, t)] && !queued && mods.len() == 0,
        KindOf::Classic => mods.len() == 0 && match e.content {
            ContentModel::Inline(t) => if source_bytes(t) <= MAX_SCRIPT_SOURCE_BYTES {
                ds.len() == 0 && queued
            } else {
                ds == seq![limit_message(e.label, source_bytes(t) as nat)] && !queued
            },
            ContentModel::External(src) => if no_loader {
                ds == seq![no_loader_message(e.label, src)] && !queued
            } else {
                queued == (ds.len() == 0) && ds.len() <= 1
            },
        },
        KindOf::Module => !queued && match e.content {
            ContentModel::Inline(t) => if source_bytes(t) > MAX_SCRIPT_SOURCE_BYTES {
                ds == seq![limit_message(e.label, source_bytes(t) as nat)] && mods.len() == 0
            } else {
                let m = module_from(lines(t), e.label);
                if !m.supported {
                    ds == m.diagnostics && mods.len() == 0
                } else {
                    &&& ds.take(m.diagnostics.len() as int) == m.diagnostics
                    &&& mods.len() >= 1
                    &&& mods.last() == (e.label, m.code)
                    &&& no_loader ==> mods.len() == 1
                }
            },
            ContentModel::External(src) => match crate::weburl::joined_url(page, src) {
                Err(_) => ds == seq![invalid_url_message(e.label, src)] && mods.len() == 0,
                Ok(_) => no_loader ==> mods.len() == 0 && ds.len() <= 1,
            },
        },
    }
}

/// What loading the script elements `elems` of the page at `page` gives:
/// the scripts laid out by queue, the diagnostics `ds` of each element in
/// document order, each classic element in its queue when `queued` says
/// so (an external one as loaded), the module queue made of each
/// element's module scripts `mods` in document order, and the URLs
/// `requests` handed to the loader, made of each element's `rq` in
/// document order.
pub open spec fn scripts_outcome(
    elems: Seq<ScriptModel>,
    page: Seq<char>,
    no_loader: bool,
    scripts: Seq<ScriptSource>,
    diagnostics: Seq<String>,
    b: Seq<ScriptSource>,
    d: Seq<ScriptSource>,
    a: Seq<ScriptSource>,
    m: Seq<ScriptSource>,
    bi: Seq<int>,
    di: Seq<int>,
    ai: Seq<int>,
    mi: Seq<int>,
    ds: Seq<Seq<Seq<char>>>,
    queued: Seq<bool>,
    mods: Seq<Seq<(Seq<char>, Seq<char>)>>,
    requests: Seq<Seq<char>>,
    rq: Seq<Seq<Seq<char>>>,
) -> bool {
    &&& scripts_layout(elems, scripts, b, d, a, m, bi, di, ai, mi)
    &&& ds.len() == elems.len()
    &&& queued.len() == elems.len()
    &&& mods.len() == elems.len()
    &&& rq.len() == elems.len()
    &&& string_views(diagnostics) == ds.flatten_alt()
    &&& source_views(m) == mods.flatten_alt()
    &&& requests == rq.flatten_alt()
    &&& forall|k: int|
        0 <= k < elems.len() ==> #[trigger] element_step(page, elems[k], ds[k], queued[k], mods[k], rq[k], no_loader)
    &&& forall|k: int|
        0 <= k < elems.len() && script_kind_of(elems[k].script_type) is Classic ==> #[trigger] queued[k]
            == in_queue(classic_ix(elems[k], bi, di, ai), k)
    &&& forall|k: int|
        0 <= k < elems.len() && script_kind_of(elems[k].script_type) is Classic && elems[k].content is External
            && #[trigger] queued[k] ==> holds_loaded(classic_q(elems[k], b, d, a), classic_ix(elems[k], bi, di, ai), k, elems[k])
}

/// A text list with one text appended keeps the old ones, and adds just
/// that text.
proof fn lemma_appended_views(new: Seq<String>, old: Seq<String>, m: Seq<char>)
    requires
        appended_one(new, old, m),
    ensures
        keeps_prefix(new, old),
        string_views(new).skip(old.len() as int) == seq![m],
{
    assert forall|i: int| 0 <= i < old.len() implies #[trigger] new[i]@ == old[i]@ by {
        assert(new.take(old.len() as int)[i] == new[i]);
    }
    assert(string_views(new).skip(old.len() as int) =~= seq![m]);
}

/// Adding an index to a queue adds just that element to it.
proof fn lemma_in_queue_push(ix: Seq<int>, k: int, j: int)
    ensures
        in_queue(ix.push(k), j) == (in_queue(ix, j) || j == k),
{
    if in_queue(ix, j) {
        let i = choose|i: int| 0 <= i < ix.len() && #[trigger] ix[i] == j;
        assert(ix.push(k)[i] == j);
    }
    if j == k {
        assert(ix.push(k)[ix.len() as int] == k);
    }
    if in_queue(ix.push(k), j) {
        let i = choose|i: int| 0 <= i < ix.push(k).len() && #[trigger] ix.push(k)[i] == j;
        if i < ix.len() {
            assert(ix[i] == j);
        }
    }
}

/// A text list that keeps the prefix `old` is `old` and what follows.
proof fn lemma_views_split(new: Seq<String>, old: Seq<String>)
    requires
        keeps_prefix(new, old),
    ensures
        string_views(new) == string_views(old) + string_views(new).skip(old.len() as int),
{
    assert(string_views(new) =~= string_views(old) + string_views(new).skip(old.len() as int));
}

/// Appending a segment to a list of segments appends it to their
/// concatenation.
proof fn lemma_flatten_push<A>(segs: Seq<Seq<A>>, x: Seq<A>)
    ensures
        segs.push(x).flatten_alt() == segs.flatten_alt() + x,
{
    assert(segs.push(x).drop_last() =~= segs);
}

/// The views of concatenated scripts are the concatenated views.
proof fn lemma_source_views_add(x: Seq<ScriptSource>, y: Seq<ScriptSource>)
    ensures
        source_views(x + y) == source_views(x) + source_views(y),
{
    assert(source_views(x + y) =~= source_views(x) + source_views(y));
}

/// Loads and orders the scripts of a document. Classic scripts run first,
/// blocking ones, then deferred, then async; module scripts run after
/// them, each module's imports first (resolved against the module's URL).
/// External scripts and modules come through `loader`; without one they
/// are skipped with a diagnostic.
pub fn load_document_scripts<L: crate::response::ResourceLoader>(
    document: &Document,
    page_url: &WebUrl,
    loader: Option<&L>,
) -> (r: LoadedScripts)
    ensures
        exists|
            b: Seq<ScriptSource>,
            d: Seq<ScriptSource>,
            a: Seq<ScriptSource>,
            m: Seq<ScriptSource>,
            bi: Seq<int>,
            di: Seq<int>,
            ai: Seq<int>,
            mi: Seq<int>,
            ds: Seq<Seq<Seq<char>>>,
            queued: Seq<bool>,
            mods: Seq<Seq<(Seq<char>, Seq<char>)>>,
            requests: Seq<Seq<char>>,
            rq: Seq<Seq<Seq<char>>>,
        |
            #[trigger] scripts_outcome(
                crate::extract::scripts(document.root@),
                page_url@.text,
                loader is None,
                r.scripts@,
                r.diagnostics@,
                b,
                d,
                a,
                m,
                bi,
                di,
                ai,
                mi,
                ds,
                queued,
                mods,
                requests,
                rq,
            ),
{
    let mut log = crate::response::LoadLog::new();
    load_document_scripts_logged(document, page_url, loader, &mut log)
}

/// Loads and orders the scripts of a document as `load_document_scripts`
/// does, recording in `log` the URLs handed to the loader.
pub fn load_document_scripts_logged<L: crate::response::ResourceLoader>(
    document: &Document,
    page_url: &WebUrl,
    loader: Option<&L>,
    log: &mut crate::response::LoadLog,
) -> (r: LoadedScripts)
    ensures
        log_extends(final(log).requested(), old(log).requested()),
        exists|
            b: Seq<ScriptSource>,
            d: Seq<ScriptSource>,
            a: Seq<ScriptSource>,
            m: Seq<ScriptSource>,
            bi: Seq<int>,
            di: Seq<int>,
            ai: Seq<int>,
            mi: Seq<int>,
            ds: Seq<Seq<Seq<char>>>,
            queued: Seq<bool>,
            mods: Seq<Seq<(Seq<char>, Seq<char>)>>,
            rq: Seq<Seq<Seq<char>>>,
        |
            #[trigger] scripts_outcome(
                crate::extract::scripts(document.root@),
                page_url@.text,
                loader is None,
                r.scripts@,
                r.diagnostics@,
                b,
                d,
                a,
                m,
                bi,
                di,
                ai,
                mi,
                ds,
                queued,
                mods,
                final(log).requested().skip(old(log).requested().len() as int),
                rq,
            ),
{
    let elements = crate::extract::collect_scripts(document);
    let ghost elems = crate::extract::scripts(document.root@);
    let ghost page = page_url@.text;
    let ghost no_loader = loader is None;
    let mut blocking: Vec<ScriptSource> = Vec::new();
    let mut deferred: Vec<ScriptSource> = Vec::new();
    let mut async_scripts: Vec<ScriptSource> = Vec::new();
    let mut modules: Vec<ScriptSource> = Vec::new();
    let ghost mut bi: Seq<int> = Seq::empty();
    let ghost mut di: Seq<int> = Seq::empty();
    let ghost mut ai: Seq<int> = Seq::empty();
    let ghost mut mi: Seq<int> = Seq::empty();
    let ghost mut dseg: Seq<Seq<Seq<char>>> = Seq::empty();
    let ghost mut cq: Seq<bool> = Seq::empty();
    let ghost mut msegs: Seq<Seq<(Seq<char>, Seq<char>)>> = Seq::empty();
    let ghost mut rseg: Seq<Seq<Seq<char>>> = Seq::empty();
    let ghost start = log.requested();
    let mut state = ModuleLoading { diagnostics: Vec::new(), cache: Vec::new(), visiting: Vec::new() };
    proof {
        assert(string_views(state.diagnostics@) =~= dseg.flatten_alt());
        assert(source_views(modules@) =~= msegs.flatten_alt());
        assert(log.requested().skip(start.len() as int) =~= rseg.flatten_alt());
    }
    let mut k: usize = 0;
    while k < elements.len()
        invariant
            k <= elements@.len(),
            elements@.map_values(|e: ScriptElement| e@) == elems,
            page == page_url@.text,
            no_loader == (loader is None),
            queue_of(elems, blocking@, bi, 0),
            queue_of(elems, deferred@, di, 1),
            queue_of(elems, async_scripts@, ai, 2),
            queue_of(elems, modules@, mi, 3),
            forall|q: int| 0 <= q < bi.len() ==> #[trigger] bi[q] < k,
            forall|q: int| 0 <= q < di.len() ==> #[trigger] di[q] < k,
            forall|q: int| 0 <= q < ai.len() ==> #[trigger] ai[q] < k,
            forall|q: int| 0 <= q < mi.len() ==> #[trigger] mi[q] < k,
            forall|j: int|
                0 <= j < k && #[trigger] kept_inline_classic(elems[j]) ==> {
                    &&& classic_queue(elems[j]) == 0 ==> holds_inline(blocking@, bi, j, elems[j])
                    &&& classic_queue(elems[j]) == 1 ==> holds_inline(deferred@, di, j, elems[j])
                    &&& classic_queue(elems[j]) == 2 ==> holds_inline(async_scripts@, ai, j, elems[j])
                },
            dseg.len() == k,
            cq.len() == k,
            msegs.len() == k,
            string_views(state.diagnostics@) == dseg.flatten_alt(),
            source_views(modules@) == msegs.flatten_alt(),
            forall|j: int|
                0 <= j < k ==> #[trigger] element_step(page, elems[j], dseg[j], cq[j], msegs[j], rseg[j], no_loader),
            forall|j: int|
                0 <= j < k && script_kind_of(elems[j].script_type) is Classic ==> #[trigger] cq[j]
                    == in_queue(classic_ix(elems[j], bi, di, ai), j),
            no_loader ==> nothing_cached(state.cache@),
            forall|j: int|
                0 <= j < k && script_kind_of(elems[j].script_type) is Classic && elems[j].content is External
                    && #[trigger] cq[j] ==> holds_loaded(
                    classic_q(elems[j], blocking@, deferred@, async_scripts@),
                    classic_ix(elems[j], bi, di, ai),
                    j,
                    elems[j],
                ),
            start == old(log).requested(),
            log_extends(log.requested(), start),
            rseg.len() == k,
            log.requested().skip(start.len() as int) == rseg.flatten_alt(),
        decreases elements@.len() - k,
    {
        let ghost bi0 = bi;
        let ghost di0 = di;
        let ghost ai0 = ai;
        let ghost b0 = blocking@;
        let ghost d0 = deferred@;
        let ghost a0 = async_scripts@;
        let ghost ds0 = state.diagnostics@;
        let ghost m0 = modules@;
        let ghost lg0 = log.requested();
        let ghost mut added: Seq<(Seq<char>, Seq<char>)> = Seq::empty();
        let ghost mut put: bool = false;
        let script = &elements[k];
        proof {
            assert(elems[k as int] == script@);
        }
        let raw_type = match &script.script_type {
            Some(t) => Some(t.as_str()),
            None => None,
        };
        let kind = script_type(raw_type);
        proof {
            assert(kind@ == script_kind_of(script@.script_type));
        }
        match kind {
            ScriptKind::Classic => {
                let source = classic_source(page_url, loader, &mut state.diagnostics, script, log);
                proof {
                    put = source is Some;
                    let e = elems[k as int];
                    let delta = string_views(state.diagnostics@).skip(ds0.len() as int);
                    match e.content {
                        ContentModel::Inline(t) => {
                            if source_bytes(t) <= MAX_SCRIPT_SOURCE_BYTES {
                                assert(delta =~= Seq::<Seq<char>>::empty());
                            } else {
                                lemma_appended_views(state.diagnostics@, ds0, limit_message(e.label, source_bytes(t) as nat));
                            }
                        },
                        ContentModel::External(src) => {
                            if no_loader {
                                lemma_appended_views(state.diagnostics@, ds0, no_loader_message(e.label, src));
                            } else if put {
                                assert(delta =~= Seq::<Seq<char>>::empty());
                            }
                        },
                    }
                    let rdelta = log.requested().skip(lg0.len() as int);
                    match e.content {
                        ContentModel::Inline(_) => {
                            assert(rdelta =~= Seq::<Seq<char>>::empty());
                        },
                        ContentModel::External(src) => {
                            assert(rdelta =~= classic_requests(page, src, no_loader, Seq::empty()));
                        },
                    }
                    assert(element_step(page, e, delta, put, added, rdelta, no_loader));
                }
                match source {
                    Some(x) => {
                        if script.async_attr {
                            async_scripts.push(x);
                            proof {
                                ai = ai.push(k as int);
                                if elems[k as int].content is External {
                                    assert(ai[ai.len() - 1] == k);
                                    assert(holds_loaded(classic_q(elems[k as int], blocking@, deferred@, async_scripts@), classic_ix(elems[k as int], bi, di, ai), k as int, elems[k as int]));
                                }
                                assert(holds_inline(async_scripts@, ai, k as int, elems[k as int]) || !kept_inline_classic(elems[k as int])) by {
                                    if kept_inline_classic(elems[k as int]) {
                                        assert(ai[ai.len() - 1] == k);
                                    }
                                }
                            }
                        } else if script.defer {
                            deferred.push(x);
                            proof {
                                di = di.push(k as int);
                                if elems[k as int].content is External {
                                    assert(di[di.len() - 1] == k);
                                    assert(holds_loaded(classic_q(elems[k as int], blocking@, deferred@, async_scripts@), classic_ix(elems[k as int], bi, di, ai), k as int, elems[k as int]));
                                }
                                assert(holds_inline(deferred@, di, k as int, elems[k as int]) || !kept_inline_classic(elems[k as int])) by {
                                    if kept_inline_classic(elems[k as int]) {
                                        assert(di[di.len() - 1] == k);
                                    }
                                }
                            }
                        } else {
                            blocking.push(x);
                            proof {
                                bi = bi.push(k as int);
                                if elems[k as int].content is External {
                                    assert(bi[bi.len() - 1] == k);
                                    assert(holds_loaded(classic_q(elems[k as int], blocking@, deferred@, async_scripts@), classic_ix(elems[k as int], bi, di, ai), k as int, elems[k as int]));
                                }
                                assert(holds_inline(blocking@, bi, k as int, elems[k as int]) || !kept_inline_classic(elems[k as int])) by {
                                    if kept_inline_classic(elems[k as int]) {
                                        assert(bi[bi.len() - 1] == k);
                                    }
                                }
                            }
                        }
                    },
                    None => {},
                }
            },
            ScriptKind::Module => {
                let sources = match &script.content {
                    ScriptContent::Inline(code) => {
                        let byte_len = code.as_str().len();
                        if within_limit(&mut state.diagnostics, script.label.as_str(), byte_len) {
                            let v = module_sources(
                                &mut state,
                                loader,
                                script.label.as_str(),
                                page_url,
                                code.as_str(),
                                usize::MAX,
                                log,
                            );
                            proof {
                                let e = elems[k as int];
                                let md = module_from(lines(code@), e.label).diagnostics;
                                let delta = string_views(state.diagnostics@).skip(ds0.len() as int);
                                let views = string_views(state.diagnostics@);
                                assert(views.take((ds0.len() + md.len()) as int) == string_views(ds0) + md);
                                assert forall|i: int| 0 <= i < md.len() implies delta[i] == md[i] by {
                                    assert(views.take((ds0.len() + md.len()) as int)[ds0.len() + i] == views[ds0.len() + i]);
                                }
                                assert(delta.take(md.len() as int) =~= md);
                                if !module_from(lines(code@), e.label).supported {
                                    assert(delta =~= md);
                                }
                                let rdelta = log.requested().skip(lg0.len() as int);
                                if no_loader {
                                    assert(rdelta =~= Seq::<Seq<char>>::empty());
                                }
                                assert(element_step(page, e, delta, false, source_views(v@), rdelta, no_loader));
                            }
                            v
                        } else {
                            proof {
                                let e = elems[k as int];
                                lemma_appended_views(state.diagnostics@, ds0, limit_message(e.label, byte_len as nat));
                                let delta = string_views(state.diagnostics@).skip(ds0.len() as int);
                                assert(source_views(Seq::<ScriptSource>::empty()) =~= Seq::<(Seq<char>, Seq<char>)>::empty());
                                let rdelta = log.requested().skip(lg0.len() as int);
                                assert(rdelta =~= Seq::<Seq<char>>::empty());
                                assert(element_step(page, e, delta, false, Seq::<(Seq<char>, Seq<char>)>::empty(), rdelta, no_loader));
                            }
                            Vec::new()
                        }
                    },
                    ScriptContent::External(src) => {
                        match resolve_script_url(page_url, &mut state.diagnostics, script.label.as_str(), src.as_str()) {
                            Some(u) => {
                                let v = load_module_url(&mut state, loader, &u, usize::MAX, log);
                                proof {
                                    let e = elems[k as int];
                                    let delta = string_views(state.diagnostics@).skip(ds0.len() as int);
                                    let rdelta = log.requested().skip(lg0.len() as int);
                                    if no_loader {
                                        assert(rdelta =~= Seq::<Seq<char>>::empty());
                                    }
                                    assert(element_step(page, e, delta, false, source_views(v@), rdelta, no_loader));
                                }
                                v
                            },
                            None => {
                                proof {
                                    let e = elems[k as int];
                                    lemma_appended_views(state.diagnostics@, ds0, invalid_url_message(e.label, src@));
                                    let delta = string_views(state.diagnostics@).skip(ds0.len() as int);
                                    assert(source_views(Seq::<ScriptSource>::empty()) =~= Seq::<(Seq<char>, Seq<char>)>::empty());
                                    let rdelta = log.requested().skip(lg0.len() as int);
                                    assert(rdelta =~= Seq::<Seq<char>>::empty());
                                    assert(element_step(page, e, delta, false, Seq::<(Seq<char>, Seq<char>)>::empty(), rdelta, no_loader));
                                }
                                Vec::new()
                            },
                        }
                    },
                };
                let ghost n = sources@.len();
                proof {
                    added = source_views(sources@);
                    lemma_source_views_add(modules@, sources@);
                }
                append_sources(&mut modules, sources);
                proof {
                    mi = mi + Seq::new(n, |q: int| k as int);
                }
            },
            ScriptKind::Unsupported(t) => {
                let mut m = crate::text::string_from("JavaScript skipped ");
                crate::text::push_str(&mut m, script.label.as_str());
                crate::text::push_str(&mut m, ": unsupported script type ");
                crate::text::push_str(&mut m, t.as_str());
                state.diagnostics.push(m);
                proof {
                    assert(state.diagnostics@.take(ds0.len() as int) =~= ds0);
                    assert(appended_one(state.diagnostics@, ds0, unsupported_message(elems[k as int].label, t@)));
                    lemma_appended_views(state.diagnostics@, ds0, unsupported_message(elems[k as int].label, t@));
                    let delta = string_views(state.diagnostics@).skip(ds0.len() as int);
                    let rdelta = log.requested().skip(lg0.len() as int);
                    assert(rdelta =~= Seq::<Seq<char>>::empty());
                    assert(element_step(page, elems[k as int], delta, put, added, rdelta, no_loader));
                }
            },
        }
        proof {
            assert(keeps_prefix(state.diagnostics@, ds0));
            lemma_views_split(state.diagnostics@, ds0);
            let delta = string_views(state.diagnostics@).skip(ds0.len() as int);
            lemma_flatten_push(dseg, delta);
            lemma_flatten_push(msegs, added);
            let rdelta = log.requested().skip(lg0.len() as int);
            lemma_flatten_push(rseg, rdelta);
            assert(log_extends(log.requested(), lg0));
            assert(log_extends(log.requested(), start)) by {
                assert forall|q: int| 0 <= q < start.len() implies #[trigger] log.requested()[q] == start[q] by {
                    assert(log.requested()[q] == lg0[q]);
                }
            }
            assert(log.requested().skip(start.len() as int) =~= lg0.skip(start.len() as int) + rdelta);
            if added.len() == 0 {
                assert(source_views(modules@) =~= source_views(m0) + added);
            }
            dseg = dseg.push(delta);
            cq = cq.push(put);
            msegs = msegs.push(added);
            rseg = rseg.push(rdelta);
            assert forall|j: int|
                0 <= j < k + 1 && #[trigger] kept_inline_classic(elems[j]) implies {
                    &&& classic_queue(elems[j]) == 0 ==> holds_inline(blocking@, bi, j, elems[j])
                    &&& classic_queue(elems[j]) == 1 ==> holds_inline(deferred@, di, j, elems[j])
                    &&& classic_queue(elems[j]) == 2 ==> holds_inline(async_scripts@, ai, j, elems[j])
                } by {
                if j < k {
                    if classic_queue(elems[j]) == 0 {
                        let q = choose|q: int| 0 <= q < bi0.len() && #[trigger] bi0[q] == j && b0[q].label@ == elems[j].label && (elems[j].content matches ContentModel::Inline(t) && b0[q].code@ == t);
                        assert(bi[q] == bi0[q] && blocking@[q] == b0[q]);
                    }
                    if classic_queue(elems[j]) == 1 {
                        let q = choose|q: int| 0 <= q < di0.len() && #[trigger] di0[q] == j && d0[q].label@ == elems[j].label && (elems[j].content matches ContentModel::Inline(t) && d0[q].code@ == t);
                        assert(di[q] == di0[q] && deferred@[q] == d0[q]);
                    }
                    if classic_queue(elems[j]) == 2 {
                        let q = choose|q: int| 0 <= q < ai0.len() && #[trigger] ai0[q] == j && a0[q].label@ == elems[j].label && (elems[j].content matches ContentModel::Inline(t) && a0[q].code@ == t);
                        assert(ai[q] == ai0[q] && async_scripts@[q] == a0[q]);
                    }
                }
            }
            assert forall|j: int|
                0 <= j < k + 1 && script_kind_of(elems[j].script_type) is Classic && elems[j].content is External
                    && #[trigger] cq[j] implies holds_loaded(
                    classic_q(elems[j], blocking@, deferred@, async_scripts@),
                    classic_ix(elems[j], bi, di, ai),
                    j,
                    elems[j],
                ) by {
                if j < k {
                    assert(cq[j] == cq.drop_last()[j]);
                    let qi = classic_ix(elems[j], bi0, di0, ai0);
                    let qq = classic_q(elems[j], b0, d0, a0);
                    let i = choose|i: int| 0 <= i < qi.len() && #[trigger] qi[i] == j && loaded_source(elems[j].label, qq[i].label@, qq[i].code@);
                    assert(classic_ix(elems[j], bi, di, ai)[i] == qi[i]);
                    assert(classic_q(elems[j], blocking@, deferred@, async_scripts@)[i] == qq[i]);
                }
            }
            assert forall|j: int| 0 <= j < k + 1 implies #[trigger] element_step(page, elems[j], dseg[j], cq[j], msegs[j], rseg[j], no_loader) by {
                if j < k {
                    assert(dseg[j] == dseg.drop_last()[j]);
                }
            }
            assert forall|j: int|
                0 <= j < k + 1 && script_kind_of(elems[j].script_type) is Classic implies #[trigger] cq[j]
                    == in_queue(classic_ix(elems[j], bi, di, ai), j) by {
                lemma_in_queue_push(bi0, k as int, j);
                lemma_in_queue_push(di0, k as int, j);
                lemma_in_queue_push(ai0, k as int, j);
                if j == k {
                    if !put {
                        if in_queue(classic_ix(elems[j], bi, di, ai), j) {
                            let ix = classic_ix(elems[j], bi, di, ai);
                            let i = choose|i: int| 0 <= i < ix.len() && #[trigger] ix[i] == j;
                            assert(ix[i] < k);
                        }
                    }
                } else {
                    assert(cq[j] == cq.drop_last()[j]);
                }
            }
        }
        k += 1;
    }
    let ghost bv = blocking@;
    let ghost dv = deferred@;
    let ghost av = async_scripts@;
    let ghost mv = modules@;
    let mut scripts = blocking;
    append_sources(&mut scripts, deferred);
    append_sources(&mut scripts, async_scripts);
    append_sources(&mut scripts, modules);
    proof {
        assert(elems.len() == elements@.len());
        assert(scripts@ == bv + dv + av + mv);
    }
    let r = LoadedScripts { scripts, diagnostics: state.diagnostics };
    proof {
        assert(scripts_outcome(
            crate::extract::scripts(document.root@),
            page_url@.text,
            loader is None,
            r.scripts@,
            r.diagnostics@,
            bv,
            dv,
            av,
            mv,
            bi,
            di,
            ai,
            mi,
            dseg,
            cq,
            msegs,
            log.requested().skip(old(log).requested().len() as int),
            rseg,
        ));
    }
    r
}

} // verus!
