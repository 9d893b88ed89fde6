//! What calling a node does. The decisions are made here, as values: the text
//! to print, the file to insert and its substitutions, the presets to store,
//! the preset file to read, or the error to report. The program that runs the
//! calls performs them.
use vstd::prelude::*;
use crate::datatypes::{
    assoc_get, assoc_has, entry_keys, find_key, first_index, lemma_first_index, lemma_scope_model,
    model_keys, Node, NodeModel,
};
use crate::errorhandler::{
    ErrorDescription, ErrorReason, ErrorReport, ErrorReportModel, ErrorType, InvalidTemplate,
};
use crate::interpreter::{calls_model, interp, CallModel, PendingCall};
use crate::jsondeserializer::{deserialize_model, try_deserialize};
use crate::parser::{parse_model, parse_source};
use crate::parserutilities::{
    pop_last, preset_json, render_param, try_node_to_json_preset, try_parse_type,
};
use crate::text::{
    chars_of, split_at_char, split_on, i32_to_string, pop_char, push_char, push_str, replace_all_lit, replace_literal, same_text,
    signed_decimal,
};

verus! {

// ---------------------------------------------------------------------------
// Substitutions of inserted files (regex)
// ---------------------------------------------------------------------------

#[verifier::external_type_specification]
#[verifier::external_body]
pub struct ExRegex(regex::Regex);

/// Whether `regex::Regex::new` accepts the pattern.
pub uninterp spec fn regex_accepts(pattern: Seq<char>) -> bool;

/// What `regex::Regex::replace_all` gives back for a regex built from
/// `pattern`, the haystack and the replacement string (in which `$` refers to
/// capture groups).
pub uninterp spec fn regex_replace_all(pattern: Seq<char>, haystack: Seq<char>, rep: Seq<char>) -> Seq<char>;

/// A compiled regex together with the pattern it was compiled from.
pub struct CompiledPattern {
    source: String,
    regex: regex::Regex,
}

impl View for CompiledPattern {
    type V = Seq<char>;

    closed spec fn view(&self) -> Seq<char> {
        self.source@
    }
}

/// Calls `regex::Regex::new`: `Some` exactly where the pattern is accepted,
/// holding the regex and its pattern.
#[verifier::external_body]
fn compile_pattern(pattern: &str) -> (r: Option<CompiledPattern>)
    ensures
        r is Some <==> regex_accepts(pattern@),
        r matches Some(c) ==> c@ == pattern@,
{
    match regex::Regex::new(pattern) {
        Ok(regex) => Some(CompiledPattern { source: pattern.to_string(), regex }),
        Err(_) => None,
    }
}

/// Calls `regex::Regex::replace_all` with a string replacement; the result is
/// left to the name `regex_replace_all`.
#[verifier::external_body]
fn replace_all_matches(c: &CompiledPattern, haystack: &str, rep: &str) -> (r: String)
    ensures
        r@ == regex_replace_all(c@, haystack@, rep@),
{
    c.regex.replace_all(haystack, rep).into_owned()
}

/// The pattern that finds `{<key>:...}` placeholders (with a default).
pub open spec fn sub_pattern(key: Seq<char>) -> Seq<char> {
    "(?m)(\\{"@ + key + ":).+(\\})"@
}

/// The placeholder `{<key>}`.
pub open spec fn placeholder(key: Seq<char>) -> Seq<char> {
    seq!['{'] + key + seq!['}']
}

/// The text after the first `k` substitutions: each key's placeholders, plain
/// and with a default, are replaced by the rendered first argument of the
/// substitution. `None` where the substitutions cannot be applied (the
/// pattern is refused, the substitution has no argument, or the argument
/// cannot be rendered).
pub open spec fn substitute(text: Seq<char>, subs: NodeModel, k: int) -> Option<Seq<char>>
    decreases k,
{
    if k <= 0 || k > subs.scope.len() {
        Some(text)
    } else {
        match substitute(text, subs, k - 1) {
            None => None,
            Some(t) => {
                let key = subs.scope[k - 1].0;
                let v = subs.scope[k - 1].1;
                if !regex_accepts(sub_pattern(key)) || v.args.len() == 0 {
                    None
                } else {
                    match render_param(v.args[0]) {
                        None => None,
                        Some(r) => Some(
                            regex_replace_all(
                                sub_pattern(key),
                                replace_all_lit(t, placeholder(key), r),
                                r,
                            ),
                        ),
                    }
                }
            },
        }
    }
}

proof fn lemma_substitute_none(text: Seq<char>, subs: NodeModel, k: int)
    requires
        0 < k <= subs.scope.len(),
        substitute(text, subs, k) is None,
    ensures
        substitute(text, subs, subs.scope.len() as int) is None,
    decreases subs.scope.len() - k,
{
    if k < subs.scope.len() {
        lemma_substitute_none(text, subs, k + 1);
    }
}

/// Applies the substitutions of an `INSERT` template to the inserted text.
pub fn apply_substitutions(text: &String, subs: &Node) -> (r: Option<String>)
    ensures
        match r {
            Some(s) => substitute(text@, subs.model(), subs.scope@.len() as int) == Some(s@),
            None => substitute(text@, subs.model(), subs.scope@.len() as int) is None,
        },
{
    let ghost m = subs.model();
    let mut t = text.clone();
    let mut k: usize = 0;
    while k < subs.scope.len()
        invariant
            m == subs.model(),
            k <= subs.scope@.len(),
            substitute(text@, m, k as int) == Some(t@),
        decreases subs.scope@.len() - k,
    {
        let key = &subs.scope[k].0;
        let v = &subs.scope[k].1;
        proof {
            assert(m.scope[k as int] == (key@, v.model()));
        }
        let mut pattern = "(?m)(\\{".to_owned();
        push_str(&mut pattern, key.as_str());
        push_str(&mut pattern, ":).+(\\})");
        let re = match compile_pattern(pattern.as_str()) {
            Some(re) => re,
            None => {
                proof {
                    lemma_substitute_none(text@, m, k as int + 1);
                }
                return None;
            },
        };
        if v.args.len() == 0 {
            proof {
                lemma_substitute_none(text@, m, k as int + 1);
            }
            return None;
        }
        proof {
            assert(m.scope[k as int].1.args[0] == v.args@[0]@);
        }
        let r = match try_parse_type(&v.args[0]) {
            Some(r) => r,
            None => {
                proof {
                    lemma_substitute_none(text@, m, k as int + 1);
                }
                return None;
            },
        };
        let mut ph = String::new();
        push_char(&mut ph, '{');
        push_str(&mut ph, key.as_str());
        push_char(&mut ph, '}');
        assert(ph@ =~= placeholder(key@));
        let t1 = replace_literal(t.as_str(), ph.as_str(), r.as_str());
        t = replace_all_matches(&re, t1.as_str(), r.as_str());
        k = k + 1;
    }
    Some(t)
}

// ---------------------------------------------------------------------------
// Inserted files
// ---------------------------------------------------------------------------

/// The global scope that a file is parsed under.
pub open spec fn global_root() -> NodeModel {
    NodeModel {
        value: "SCOPE_GLOBAL"@,
        render: false,
        tab_number: -1,
        scope: Seq::empty(),
        args: Seq::empty(),
    }
}

/// Whether the parser's counters hold a source of this length.
pub open spec fn parse_fits(src: Seq<char>) -> bool {
    src.len() < i32::MAX && 3 * src.len() + 4 < usize::MAX
}

/// What a file inserted by an `INSERT` template gives: its text after the
/// substitutions, closed by a `$` line, is parsed under a fresh global scope
/// and interpreted; the interpreted tree and the calls to make, in order
/// (the printed text is what these calls print, at the template's place).
/// `None` where the substitutions cannot be applied.
pub open spec fn inserted(text: Seq<char>, subs: NodeModel) -> Option<(NodeModel, Seq<CallModel>)> {
    match substitute(text, subs, subs.scope.len() as int) {
        Some(t) => match parse_model(t + "\n$"@, global_root()) {
            Some(tree) => Some(interp(tree, false)),
            None => None,
        },
        None => None,
    }
}

/// Renders the text of a file inserted by an `INSERT` template with the
/// substitutions `subs`: the interpreted tree and the calls to make, each
/// from `file_path`. `None` where the substitutions cannot be applied, or
/// where the substituted text is too long for the parser's counters.
pub fn insert_file(text: &String, subs: &Node, file_path: String) -> (r: Option<(Node, Vec<PendingCall>)>)
    ensures
        r is None <==> match substitute(text@, subs.model(), subs.scope@.len() as int) {
            Some(t) => !parse_fits(t + "\n$"@),
            None => true,
        },
        r matches Some(x) ==> inserted(text@, subs.model()) == Some((x.0.model(), calls_model(x.1@)))
            && forall|i: int| 0 <= i < x.1@.len() ==> (#[trigger] x.1@[i]).file_path@ == file_path@,
{
    let t = match apply_substitutions(text, subs) {
        Some(t) => t,
        None => return None,
    };
    let mut src = t;
    push_str(&mut src, "\n$");
    proof {
        reveal_strlit("\n$");
    }
    let cs = chars_of(src.as_str());
    if cs.len() >= 0x7fff_ffffusize || cs.len() > (usize::MAX - 5) / 3 {
        return None;
    }
    let root = Node {
        value: "SCOPE_GLOBAL".to_owned(),
        render: false,
        tab_number: -1,
        scope: Vec::new(),
        args: Vec::new(),
    };
    proof {
        reveal_strlit("SCOPE_GLOBAL");
        assert(root.model().scope =~= Seq::<(Seq<char>, NodeModel)>::empty());
        assert(root.model().args =~= Seq::<crate::datatypes::ParameterModel>::empty());
        assert(root.model() == global_root());
        assert(crate::laws::all_indexed(root.model()));
        crate::laws::lemma_negative_root_never_closes(src@, root.model());
        crate::laws::lemma_parsed_tree_is_interpretable(src@, root.model());
    }
    let mut tree = match parse_source(src, root) {
        Some(tree) => tree,
        None => return None,
    };
    let (n, calls) = tree.interpret(false, file_path);
    Some((n, calls))
}

/// A step from the directory of the source file toward an inserted file.
pub enum PathStep {
    /// Up to the parent directory (`..`).
    Up,
    /// Into the named entry.
    Into(String),
}

pub enum PathStepModel {
    Up,
    Into(Seq<char>),
}

impl PathStep {
    pub open spec fn model(self) -> PathStepModel {
        match self {
            PathStep::Up => PathStepModel::Up,
            PathStep::Into(s) => PathStepModel::Into(s@),
        }
    }
}

/// The step that a part of a `PATH` stands for.
pub open spec fn step_of(part: Seq<char>) -> PathStepModel {
    if part == ".."@ {
        PathStepModel::Up
    } else {
        PathStepModel::Into(part)
    }
}

/// The steps of a `PATH` value: its parts between `/`, in order, `..` going
/// up and any other part going into the entry of that name.
pub fn path_steps(path: &String) -> (r: Vec<PathStep>)
    ensures
        r@.len() == split_on(path@, '/').len(),
        forall|i: int| 0 <= i < r@.len() ==> (#[trigger] r@[i]).model() == step_of(split_on(path@, '/')[i]),
{
    let parts = split_at_char(path.as_str(), '/');
    let mut r: Vec<PathStep> = Vec::new();
    let mut i: usize = 0;
    while i < parts.len()
        invariant
            i <= parts@.len(),
            parts@.len() == split_on(path@, '/').len(),
            forall|k: int| 0 <= k < parts@.len() ==> #[trigger] parts@[k]@ == split_on(path@, '/')[k],
            r@.len() == i,
            forall|k: int| 0 <= k < i ==> (#[trigger] r@[k]).model() == step_of(split_on(path@, '/')[k]),
        decreases parts@.len() - i,
    {
        let part = &parts[i];
        if same_text(part.as_str(), "..") {
            r.push(PathStep::Up);
        } else {
            r.push(PathStep::Into(part.clone()));
        }
        i = i + 1;
    }
    r
}

// ---------------------------------------------------------------------------
// Headers
// ---------------------------------------------------------------------------

/// The dictionary that a `HEADERS` template sets: each child as
/// `"<key>" : <value>`, where a leaf with arguments is its rendered first
/// argument and anything else its own dictionary.
pub open spec fn header_text(n: NodeModel) -> Option<Seq<char>>
    decreases n, n.scope.len() + 1,
{
    match header_entries(n, n.scope.len() as int) {
        Some(e) => Some("{"@ + e + " }"@),
        None => None,
    }
}

pub open spec fn header_entries(n: NodeModel, k: int) -> Option<Seq<char>>
    decreases n, k,
{
    if k <= 0 || k > n.scope.len() {
        Some(Seq::empty())
    } else {
        let tag = n.scope[k - 1].0;
        let v = n.scope[k - 1].1;
        let value = if v.scope.len() == 0 && v.args.len() > 0 {
            render_param(v.args[0])
        } else {
            header_text(v)
        };
        match (header_entries(n, k - 1), value) {
            (Some(before), Some(x)) => Some(before + " \""@ + tag + "\" : "@ + x + ","@),
            _ => None,
        }
    }
}

proof fn lemma_header_entries_none(n: NodeModel, k: int)
    requires
        0 <= k <= n.scope.len(),
        header_entries(n, k) is None,
    ensures
        header_entries(n, n.scope.len() as int) is None,
    decreases n.scope.len() - k,
{
    if k < n.scope.len() {
        lemma_header_entries_none(n, k + 1);
    }
}

fn header_text_exec(n: &Node) -> (r: Option<String>)
    ensures
        match r {
            Some(s) => header_text(n.model()) == Some(s@),
            None => header_text(n.model()) is None,
        },
    decreases n,
{
    let ghost m = n.model();
    let mut out = String::new();
    let mut k: usize = 0;
    while k < n.scope.len()
        invariant
            m == n.model(),
            k <= n.scope@.len(),
            header_entries(m, k as int) == Some(out@),
        decreases n.scope@.len() - k,
    {
        let tag = &n.scope[k].0;
        let v = &n.scope[k].1;
        proof {
            assert(m.scope[k as int] == (tag@, v.model()));
        }
        let value = if v.scope.len() == 0 && v.args.len() > 0 {
            proof {
                assert(v.model().args[0] == v.args@[0]@);
            }
            try_parse_type(&v.args[0])
        } else {
            header_text_exec(v)
        };
        match value {
            None => {
                proof {
                    lemma_header_entries_none(m, k as int + 1);
                }
                return None;
            },
            Some(x) => {
                push_str(&mut out, " \"");
                push_str(&mut out, tag.as_str());
                push_str(&mut out, "\" : ");
                push_str(&mut out, x.as_str());
                push_str(&mut out, ",");
            },
        }
        k = k + 1;
    }
    let mut s = "{".to_owned();
    push_str(&mut s, out.as_str());
    push_str(&mut s, " }");
    Some(s)
}

// ---------------------------------------------------------------------------
// Presets to store
// ---------------------------------------------------------------------------

/// The stored members of the first `k` presets of a `NEW_PRESETS` template,
/// each under its template name.
pub open spec fn presets_text(np: NodeModel, k: int) -> Option<Seq<char>>
    decreases k,
{
    if k <= 0 || k > np.scope.len() {
        Some(Seq::empty())
    } else {
        let p = np.scope[k - 1].1;
        match (presets_text(np, k - 1), preset_json(p, p.value)) {
            (Some(before), Some(j)) => Some(before + j),
            _ => None,
        }
    }
}

proof fn lemma_presets_text_none(np: NodeModel, k: int)
    requires
        0 < k <= np.scope.len(),
        presets_text(np, k) is None,
    ensures
        presets_text(np, np.scope.len() as int) is None,
    decreases np.scope.len() - k,
{
    if k < np.scope.len() {
        lemma_presets_text_none(np, k + 1);
    }
}

/// The contents of the preset file: the stored presets as one object.
pub open spec fn preset_file(np: NodeModel) -> Option<Seq<char>> {
    match presets_text(np, np.scope.len() as int) {
        Some(j) => Some("{"@ + pop_last(j) + "}"@),
        None => None,
    }
}

fn preset_file_exec(np: &Node) -> (r: Option<String>)
    ensures
        match r {
            Some(s) => preset_file(np.model()) == Some(s@),
            None => preset_file(np.model()) is None,
        },
{
    let ghost m = np.model();
    let mut out = String::new();
    let mut k: usize = 0;
    while k < np.scope.len()
        invariant
            m == np.model(),
            k <= np.scope@.len(),
            presets_text(m, k as int) == Some(out@),
        decreases np.scope@.len() - k,
    {
        let p = &np.scope[k].1;
        proof {
            assert(m.scope[k as int].1 == p.model());
        }
        match try_node_to_json_preset(p, &p.value) {
            None => {
                proof {
                    lemma_presets_text_none(m, k as int + 1);
                }
                return None;
            },
            Some(j) => push_str(&mut out, j.as_str()),
        }
        k = k + 1;
    }
    let _ = pop_char(&mut out);
    let mut s = "{".to_owned();
    push_str(&mut s, out.as_str());
    push_str(&mut s, "}");
    Some(s)
}

// ---------------------------------------------------------------------------
// Calls
// ---------------------------------------------------------------------------

/// What a call does.
pub enum CallEffect {
    /// Nothing happens.
    Nothing,
    /// The text is printed to standard output.
    Print(String),
    /// The file at the path (relative to the source) is read, the
    /// substitutions are applied, and it is parsed and interpreted in place
    /// (see [`insert_file`]).
    Insert(String, Node),
    /// The text is written to the preset file.
    SavePresets(String),
    /// The preset file is read and the presets named by the node's children
    /// are interpreted (see [`Node::preset_plan`]).
    LoadPresets,
    /// The error is reported and interpretation goes on.
    Report(ErrorReport),
}

pub enum EffectModel {
    Nothing,
    Print(Seq<char>),
    Insert(Seq<char>, NodeModel),
    SavePresets(Seq<char>),
    LoadPresets,
    Report(ErrorReportModel),
}

impl CallEffect {
    pub open spec fn model(self) -> EffectModel {
        match self {
            CallEffect::Nothing => EffectModel::Nothing,
            CallEffect::Print(s) => EffectModel::Print(s@),
            CallEffect::Insert(p, subs) => EffectModel::Insert(p@, subs.model()),
            CallEffect::SavePresets(s) => EffectModel::SavePresets(s@),
            CallEffect::LoadPresets => EffectModel::LoadPresets,
            CallEffect::Report(r) => EffectModel::Report(r@),
        }
    }
}

/// The report of a template that cannot be rendered.
pub open spec fn template_report(
    value: Seq<char>,
    reason: InvalidTemplate,
    error_type: ErrorType,
    tab_number: int,
    file_path: Seq<char>,
) -> ErrorReportModel {
    ErrorReportModel {
        description: ErrorDescription::InvalidTemplate,
        reason: ErrorReason::InvalidTemplate(reason),
        details: seq![value],
        suggestion: Seq::empty(),
        error_type,
        line: "?"@,
        column: signed_decimal(tab_number),
        file: file_path,
    }
}

/// Whether calling `n` can be made: a shown text, `MIME` or `REQUEST_LIMIT`
/// template has the arguments it prints (and they can be rendered), a shown
/// `INSERT` has a `PATH` with an argument and a `SUBSTITUTIONS` sub-template,
/// `HEADERS` can be rendered, and the presets of a `NEW_PRESETS` can be
/// stored. Elsewhere the call stops the program.
pub open spec fn callable(n: NodeModel, is_preset: bool) -> bool {
    let shown = n.render && !is_preset;
    if n.value == "TEXT_GLOBAL"@ {
        shown ==> n.args.len() > 0
    } else if n.value == "INSERT"@ {
        shown ==> assoc_has(n.scope, "PATH"@) && assoc_get(n.scope, "PATH"@).args.len() > 0
            && assoc_has(n.scope, "SUBSTITUTIONS"@)
    } else if n.value == "MIME"@ {
        shown ==> n.args.len() > 0
    } else if n.value == "HEADERS"@ {
        header_text(n) is Some
    } else if n.value == "REQUEST_LIMIT"@ {
        shown ==> n.args.len() >= 3 && render_param(n.args[0]) is Some && render_param(n.args[2]) is Some
    } else if n.value == "PRESET"@ {
        assoc_has(n.scope, "NEW_PRESETS"@) ==> preset_file(assoc_get(n.scope, "NEW_PRESETS"@)) is Some
    } else {
        true
    }
}

/// What calling `n` does, where the call can be made ([`callable`]). Text,
/// `INSERT`, `MIME` and `REQUEST_LIMIT` act only where the node renders
/// outside a preset declaration; `HEADERS` and `PRESET` always act; `IF` and
/// `PER` do nothing; any other rendered template is reported as not
/// renderable.
pub open spec fn effect(n: NodeModel, is_preset: bool, file_path: Seq<char>) -> EffectModel {
    let shown = n.render && !is_preset;
    if n.value == "TEXT_GLOBAL"@ {
        if shown {
            EffectModel::Print(n.args[0].value)
        } else {
            EffectModel::Nothing
        }
    } else if n.value == "INSERT"@ {
        if shown {
            EffectModel::Insert(
                assoc_get(n.scope, "PATH"@).args[0].value,
                assoc_get(n.scope, "SUBSTITUTIONS"@),
            )
        } else {
            EffectModel::Nothing
        }
    } else if n.value == "MIME"@ {
        if shown {
            EffectModel::Print("mime_type(\""@ + n.args[0].value + "\");"@)
        } else {
            EffectModel::Nothing
        }
    } else if n.value == "HEADERS"@ {
        EffectModel::Print("set_headers("@ + header_text(n).unwrap() + ");"@)
    } else if n.value == "REQUEST_LIMIT"@ {
        if shown {
            EffectModel::Print(
                "request_limit("@ + render_param(n.args[0]).unwrap() + ", "@ + render_param(
                    n.args[2],
                ).unwrap() + ");"@,
            )
        } else {
            EffectModel::Nothing
        }
    } else if n.value == "PRESET"@ {
        if assoc_has(n.scope, "NEW_PRESETS"@) {
            EffectModel::SavePresets(preset_file(assoc_get(n.scope, "NEW_PRESETS"@)).unwrap())
        } else {
            EffectModel::LoadPresets
        }
    } else if n.value == "IF"@ || n.value == "PER"@ {
        EffectModel::Nothing
    } else if n.render {
        EffectModel::Report(
            template_report(
                n.value,
                InvalidTemplate::NotRenderable,
                ErrorType::Grammar,
                n.tab_number,
                file_path,
            ),
        )
    } else {
        EffectModel::Nothing
    }
}

fn child_named<'a>(n: &'a Node, key: &str) -> (r: Option<&'a Node>)
    ensures
        match r {
            Some(c) => assoc_has(n.model().scope, key@) && c.model() == assoc_get(
                n.model().scope,
                key@,
            ),
            None => !assoc_has(n.model().scope, key@),
        },
{
    proof {
        lemma_scope_model(*n);
    }
    match find_key(&n.scope, key) {
        Some(i) => {
            proof {
                lemma_first_index(entry_keys(n.scope@), key@);
                assert(n.model().scope[i as int].1 == n.scope@[i as int].1.model());
            }
            Some(&n.scope[i].1)
        },
        None => None,
    }
}

fn string_of_parts(a: &str, b: &str, c: &str) -> (r: String)
    ensures
        r@ == a@ + b@ + c@,
{
    let mut s = a.to_owned();
    push_str(&mut s, b);
    push_str(&mut s, c);
    s
}

fn template_report_exec(
    value: &String,
    reason: InvalidTemplate,
    error_type: ErrorType,
    tab_number: i32,
    file_path: &String,
) -> (r: ErrorReport)
    ensures
        r@ == template_report(value@, reason, error_type, tab_number as int, file_path@),
{
    let mut details: Vec<String> = Vec::new();
    details.push(value.clone());
    let r = ErrorReport {
        description: ErrorDescription::InvalidTemplate,
        reason: ErrorReason::InvalidTemplate(reason),
        details,
        suggestion: String::new(),
        error_type,
        line: "?".to_owned(),
        column: i32_to_string(tab_number),
        file: file_path.clone(),
    };
    assert(r@.details =~= seq![value@]);
    r
}

impl Node {
    /// Whether calling this node can be made (see [`callable`]).
    pub fn can_call(&self, is_preset: bool) -> (r: bool)
        ensures
            r == callable(self.model(), is_preset),
    {
        let ghost m = self.model();
        let shown = self.render && !is_preset;
        let v = self.value.as_str();
        proof {
            assert(m.args.len() == self.args@.len());
            if self.args@.len() > 0 {
                assert(m.args[0] == self.args@[0]@);
            }
            if self.args@.len() > 2 {
                assert(m.args[2] == self.args@[2]@);
            }
        }
        if same_text(v, "TEXT_GLOBAL") {
            !shown || self.args.len() > 0
        } else if same_text(v, "INSERT") {
            if !shown {
                return true;
            }
            match child_named(self, "PATH") {
                Some(p) => {
                    if p.args.len() == 0 {
                        return false;
                    }
                    match child_named(self, "SUBSTITUTIONS") {
                        Some(_) => true,
                        None => false,
                    }
                },
                None => false,
            }
        } else if same_text(v, "MIME") {
            !shown || self.args.len() > 0
        } else if same_text(v, "HEADERS") {
            match header_text_exec(self) {
                Some(_) => true,
                None => false,
            }
        } else if same_text(v, "REQUEST_LIMIT") {
            if !shown {
                return true;
            }
            if self.args.len() < 3 {
                return false;
            }
            match (try_parse_type(&self.args[0]), try_parse_type(&self.args[2])) {
                (Some(_), Some(_)) => true,
                _ => false,
            }
        } else if same_text(v, "PRESET") {
            match child_named(self, "NEW_PRESETS") {
                Some(np) => match preset_file_exec(np) {
                    Some(_) => true,
                    None => false,
                },
                None => true,
            }
        } else {
            true
        }
    }

    /// What calling this node does (the node itself is unchanged by a call).
    pub fn call_effect(&self, is_preset: bool, file_path: &String) -> (r: CallEffect)
        requires
            callable(self.model(), is_preset),
        ensures
            r.model() == effect(self.model(), is_preset, file_path@),
    {
        let ghost m = self.model();
        let shown = self.render && !is_preset;
        let v = self.value.as_str();
        proof {
            assert(m.args.len() == self.args@.len());
            if self.args@.len() > 0 {
                assert(m.args[0] == self.args@[0]@);
            }
            if self.args@.len() > 2 {
                assert(m.args[2] == self.args@[2]@);
            }
        }
        if same_text(v, "TEXT_GLOBAL") {
            if shown {
                CallEffect::Print(self.args[0].value.clone())
            } else {
                CallEffect::Nothing
            }
        } else if same_text(v, "INSERT") {
            if !shown {
                return CallEffect::Nothing;
            }
            let p = child_named(self, "PATH").unwrap();
            let subs = child_named(self, "SUBSTITUTIONS").unwrap();
            proof {
                assert(p.model().args[0] == p.args@[0]@);
            }
            CallEffect::Insert(p.args[0].value.clone(), subs.duplicate())
        } else if same_text(v, "MIME") {
            if shown {
                CallEffect::Print(string_of_parts("mime_type(\"", self.args[0].value.as_str(), "\");"))
            } else {
                CallEffect::Nothing
            }
        } else if same_text(v, "HEADERS") {
            let h = header_text_exec(self).unwrap();
            CallEffect::Print(string_of_parts("set_headers(", h.as_str(), ");"))
        } else if same_text(v, "REQUEST_LIMIT") {
            if shown {
                let a = try_parse_type(&self.args[0]).unwrap();
                let b = try_parse_type(&self.args[2]).unwrap();
                let mut s = "request_limit(".to_owned();
                push_str(&mut s, a.as_str());
                push_str(&mut s, ", ");
                push_str(&mut s, b.as_str());
                push_str(&mut s, ");");
                CallEffect::Print(s)
            } else {
                CallEffect::Nothing
            }
        } else if same_text(v, "PRESET") {
            match child_named(self, "NEW_PRESETS") {
                Some(np) => CallEffect::SavePresets(preset_file_exec(np).unwrap()),
                None => CallEffect::LoadPresets,
            }
        } else if same_text(v, "IF") || same_text(v, "PER") {
            CallEffect::Nothing
        } else if self.render {
            CallEffect::Report(
                template_report_exec(
                    &self.value,
                    InvalidTemplate::NotRenderable,
                    ErrorType::Grammar,
                    self.tab_number,
                    file_path,
                ),
            )
        } else {
            CallEffect::Nothing
        }
    }
}

// ---------------------------------------------------------------------------
// Presets to load
// ---------------------------------------------------------------------------

/// Why loading presets stops.
pub enum PlanFailure {
    /// A fatal error is reported and the program exits.
    Report(ErrorReport),
    /// The stored text cannot be read as presets and the program stops.
    Abort,
}

pub enum FailureModel {
    Report(ErrorReportModel),
    Abort,
}

/// The presets to interpret, in order, and what stops the loading afterwards.
pub struct PresetPlan {
    pub presets: Vec<Node>,
    pub failure: Option<PlanFailure>,
}

impl PlanFailure {
    pub open spec fn model(self) -> FailureModel {
        match self {
            PlanFailure::Report(r) => FailureModel::Report(r@),
            PlanFailure::Abort => FailureModel::Abort,
        }
    }
}

pub open spec fn failure_model(f: Option<PlanFailure>) -> Option<FailureModel> {
    match f {
        Some(x) => Some(x.model()),
        None => None,
    }
}

/// The first `k` presets named by `n`'s children, looked up in the stored
/// presets `j`; the first name that is missing stops the loading with a fatal
/// error.
pub open spec fn plan_fold(n: NodeModel, j: NodeModel, file_path: Seq<char>, k: int) -> (
    Seq<NodeModel>,
    Option<FailureModel>,
)
    decreases k,
{
    if k <= 0 || k > n.scope.len() {
        (Seq::empty(), None)
    } else {
        let (ps, f) = plan_fold(n, j, file_path, k - 1);
        if f is Some {
            (ps, f)
        } else {
            let key = n.scope[k - 1].0;
            if assoc_has(j.scope, key) {
                (ps.push(assoc_get(j.scope, key)), None)
            } else {
                (
                    ps,
                    Some(
                        FailureModel::Report(
                            template_report(
                                key,
                                InvalidTemplate::PresetDoesntExist,
                                ErrorType::Fatal,
                                n.scope[k - 1].1.tab_number,
                                file_path,
                            ),
                        ),
                    ),
                )
            }
        }
    }
}

/// Loading presets for `n` from the stored text (`None` where the preset file
/// cannot be read, which counts as no presets at all): an empty file is a
/// fatal error; otherwise the stored presets are read and those named by
/// `n`'s children are interpreted in turn.
pub open spec fn preset_plan_model(n: NodeModel, stored: Option<Seq<char>>, file_path: Seq<char>) -> (
    Seq<NodeModel>,
    Option<FailureModel>,
) {
    if stored == Some(Seq::<char>::empty()) {
        (
            Seq::empty(),
            Some(
                FailureModel::Report(
                    template_report(
                        n.value,
                        InvalidTemplate::NoPresets,
                        ErrorType::Fatal,
                        n.tab_number,
                        file_path,
                    ),
                ),
            ),
        )
    } else {
        let text = match stored {
            Some(s) => s,
            None => "{}"@,
        };
        match deserialize_model(text) {
            None => (Seq::empty(), Some(FailureModel::Abort)),
            Some(j) => plan_fold(n, j, file_path, n.scope.len() as int),
        }
    }
}

impl Node {
    /// The presets that a `PRESET` template without `NEW_PRESETS` renders.
    pub fn preset_plan(&self, stored: Option<String>, file_path: &String) -> (r: PresetPlan)
        requires
            stored matches Some(s) ==> s@.len() + 3 < usize::MAX,
        ensures
            (r.presets@.map_values(|p: Node| p.model()), failure_model(r.failure)) == preset_plan_model(
                self.model(),
                match stored {
                    Some(s) => Some(s@),
                    None => None,
                },
                file_path@,
            ),
    {
        let ghost m = self.model();
        let ghost stored_g = stored;
        let ghost stored_view = match stored_g {
            Some(x) => Some(x@),
            None => None::<Seq<char>>,
        };
        let text = match stored {
            Some(s) => {
                if same_text(s.as_str(), "") {
                    proof {
                        reveal_strlit("");
                        assert(s@ =~= Seq::<char>::empty());
                    }
                    let r = PresetPlan {
                        presets: Vec::new(),
                        failure: Some(
                            PlanFailure::Report(
                                template_report_exec(
                                    &self.value,
                                    InvalidTemplate::NoPresets,
                                    ErrorType::Fatal,
                                    self.tab_number,
                                    file_path,
                                ),
                            ),
                        ),
                    };
                    assert(r.presets@.map_values(|p: Node| p.model()) =~= Seq::<NodeModel>::empty());
                    return r;
                }
                proof {
                    reveal_strlit("");
                    if s@.len() == 0 {
                        assert(s@ =~= ""@);
                    }
                }
                s
            },
            None => "{}".to_owned(),
        };
        proof {
            reveal_strlit("{}");
        }
        let json = match try_deserialize(text) {
            Some(j) => j,
            None => {
                let r = PresetPlan { presets: Vec::new(), failure: Some(PlanFailure::Abort) };
                assert(r.presets@.map_values(|p: Node| p.model()) =~= Seq::<NodeModel>::empty());
                return r;
            },
        };
        let ghost jm = json.model();
        assert(preset_plan_model(m, stored_view, file_path@) == plan_fold(m, jm, file_path@, m.scope.len() as int));
        let mut presets: Vec<Node> = Vec::new();
        let mut k: usize = 0;
        #[verifier::loop_isolation(false)]
        while k < self.scope.len()
            invariant
                m == self.model(),
                jm == json.model(),
                k <= self.scope@.len(),
                preset_plan_model(m, stored_view, file_path@) == plan_fold(m, jm, file_path@, m.scope.len() as int),
                (presets@.map_values(|p: Node| p.model()), None::<FailureModel>) == plan_fold(
                    m,
                    jm,
                    file_path@,
                    k as int,
                ),
            decreases self.scope@.len() - k,
        {
            let key = &self.scope[k].0;
            proof {
                assert(m.scope[k as int] == (key@, self.scope@[k as int].1.model()));
            }
            match child_named(&json, key.as_str()) {
                Some(p) => {
                    let ghost before = presets@;
                    presets.push(p.duplicate());
                    proof {
                        assert(presets@.map_values(|p: Node| p.model()) =~= before.map_values(
                            |p: Node| p.model(),
                        ).push(p.model()));
                    }
                },
                None => {
                    let report = template_report_exec(
                        key,
                        InvalidTemplate::PresetDoesntExist,
                        ErrorType::Fatal,
                        self.scope[k].1.tab_number,
                        file_path,
                    );
                    proof {
                        assert(!assoc_has(jm.scope, key@));
                        assert(m.scope[k as int].1.tab_number == self.scope@[k as int].1.tab_number as int);
                        assert(plan_fold(m, jm, file_path@, k as int + 1) == (presets@.map_values(|p: Node| p.model()), Some(FailureModel::Report(report@))));
                        lemma_plan_stops(m, jm, file_path@, k as int + 1);
                    }
                    return PresetPlan { presets, failure: Some(PlanFailure::Report(report)) };
                },
            }
            k = k + 1;
        }
        PresetPlan { presets, failure: None }
    }
}

proof fn lemma_plan_stops(n: NodeModel, j: NodeModel, file_path: Seq<char>, k: int)
    requires
        0 < k <= n.scope.len(),
        plan_fold(n, j, file_path, k).1 is Some,
    ensures
        plan_fold(n, j, file_path, n.scope.len() as int) == plan_fold(n, j, file_path, k),
    decreases n.scope.len() - k,
{
    if k < n.scope.len() {
        lemma_plan_stops(n, j, file_path, k + 1);
    }
}

} // verus!
