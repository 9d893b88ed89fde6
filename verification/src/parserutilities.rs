//! Typing and rendering of template arguments, and the JSON text in which
//! presets are stored.
use vstd::prelude::*;
use crate::datatypes::{Node, NodeModel, Parameter, ParameterModel, params_model};
use crate::text::{
    alphabetic_char, numeric_char, chars_of, has_char, i32_to_string, is_alphabetic,
    is_numeric, lemma_split_on_nonempty, parse_i32, parse_i32_spec, pop_char, push_char, push_str,
    same_text, signed_decimal, split_at_char, split_on, upper_text, to_uppercase,
};

verus! {

// ---------------------------------------------------------------------------
// Argument types
// ---------------------------------------------------------------------------

pub open spec fn all_alphabetic(s: Seq<char>) -> bool {
    forall|i: int| 0 <= i < s.len() ==> alphabetic_char(#[trigger] s[i])
}

pub open spec fn is_number_char(c: char) -> bool {
    numeric_char(c) || c == '-' || c == '.'
}

pub open spec fn all_number_chars(s: Seq<char>) -> bool {
    forall|i: int| 0 <= i < s.len() ==> is_number_char(#[trigger] s[i])
}

/// The type an argument is recognised as. A quoted argument is a `str`; one
/// with a `:` is a `time`; one ending in a numeric character is a `number`
/// when it holds only numeric characters, `-` and `.`, else a `str`; an
/// upper-case alphabetic one is a `keyword`; anything else is a `str`.
pub open spec fn determine_type(raw: Seq<char>, force_string: bool) -> Seq<char> {
    if force_string {
        "str"@
    } else if raw.contains(':') {
        "time"@
    } else if numeric_char(raw.last()) {
        if all_number_chars(raw) {
            "number"@
        } else {
            "str"@
        }
    } else if upper_text(raw) == raw && all_alphabetic(raw) {
        "keyword"@
    } else {
        "str"@
    }
}

/// Recognises the type of an argument.
pub fn parameter_determine(raw: String, force_string: bool) -> (r: String)
    requires
        force_string || raw@.len() > 0,
    ensures
        r@ == determine_type(raw@, force_string),
{
    if force_string {
        return "str".to_owned();
    }
    if has_char(raw.as_str(), ':') {
        return "time".to_owned();
    }
    let v = chars_of(raw.as_str());
    if is_numeric(v[v.len() - 1]) {
        let mut i: usize = 0;
        while i < v.len()
            invariant
                v@ == raw@,
                !force_string,
                !raw@.contains(':'),
                numeric_char(raw@.last()),
                i <= v@.len(),
                forall|j: int| 0 <= j < i ==> is_number_char(#[trigger] v@[j]),
            decreases v@.len() - i,
        {
            let c = v[i];
            let n = is_numeric(c);
            if !n && c != '-' && c != '.' {
                assert(!is_number_char(raw@[i as int]));
                return "str".to_owned();
            }
            i = i + 1;
        }
        return "number".to_owned();
    }
    let upper = to_uppercase(raw.as_str());
    if upper == raw {
        let mut i: usize = 0;
        while i < v.len()
            invariant
                v@ == raw@,
                !force_string,
                !raw@.contains(':'),
                !numeric_char(raw@.last()),
                upper_text(raw@) == raw@,
                i <= v@.len(),
                forall|j: int| 0 <= j < i ==> alphabetic_char(#[trigger] v@[j]),
            decreases v@.len() - i,
        {
            if !is_alphabetic(v[i]) {
                assert(!alphabetic_char(raw@[i as int]));
                return "str".to_owned();
            }
            i = i + 1;
        }
        return "keyword".to_owned();
    }
    "str".to_owned()
}

// ---------------------------------------------------------------------------
// Rendering of arguments
// ---------------------------------------------------------------------------

pub open spec fn in_i32(x: int) -> bool {
    i32::MIN <= x && x <= i32::MAX
}

/// `acc + part * unit`, where each step must stay within `i32`.
pub open spec fn add_scaled(acc: Option<int>, part: Seq<char>, unit: int) -> Option<int> {
    match (acc, parse_i32_spec(part)) {
        (Some(a), Some(p)) => if in_i32(p * unit) && in_i32(a + p * unit) {
            Some(a + p * unit)
        } else {
            None
        },
        _ => None,
    }
}

/// The milliseconds of a `h:m:s`, `m:s` or `s` time value (with more than three
/// parts, the first one counts as seconds); `None` where a part is not an
/// `i32` or a step leaves the `i32` range.
pub open spec fn time_millis(value: Seq<char>) -> Option<int> {
    let parts = split_on(value, ':');
    if parts.len() == 3 {
        add_scaled(add_scaled(add_scaled(Some(0), parts[0], 3600000), parts[1], 60000), parts[2], 1000)
    } else if parts.len() == 2 {
        add_scaled(add_scaled(Some(0), parts[0], 60000), parts[1], 1000)
    } else {
        add_scaled(Some(0), parts[0], 1000)
    }
}

pub open spec fn quoted(s: Seq<char>) -> Seq<char> {
    seq!['"'] + s + seq!['"']
}

/// How an argument is written into the generated code: a `time` as its
/// milliseconds, a `str` in double quotes, a `number` as it is, a `keyword` as
/// the string `"!#!KEYWORD:<value>"`, anything else as nothing. `None` where a
/// `time` cannot be computed.
pub open spec fn render_param(p: ParameterModel) -> Option<Seq<char>> {
    if p.var_type == "time"@ {
        match time_millis(p.value) {
            Some(t) => Some(signed_decimal(t)),
            None => None,
        }
    } else if p.var_type == "str"@ {
        Some(quoted(p.value))
    } else if p.var_type == "number"@ {
        Some(p.value)
    } else if p.var_type == "keyword"@ {
        Some(quoted("!#!KEYWORD:"@ + p.value))
    } else {
        Some(Seq::empty())
    }
}

fn add_scaled_exec(acc: Option<i32>, part: &String, unit: i32) -> (r: Option<i32>)
    ensures
        match r {
            Some(v) => add_scaled(
                match acc {
                    Some(a) => Some(a as int),
                    None => None,
                },
                part@,
                unit as int,
            ) == Some(v as int),
            None => add_scaled(
                match acc {
                    Some(a) => Some(a as int),
                    None => None,
                },
                part@,
                unit as int,
            ) is None,
        },
{
    match acc {
        None => None,
        Some(a) => match parse_i32(part.as_str()) {
            None => None,
            Some(p) => match p.checked_mul(unit) {
                None => None,
                Some(m) => a.checked_add(m),
            },
        },
    }
}

fn time_millis_exec(value: &String) -> (r: Option<i32>)
    ensures
        match r {
            Some(v) => time_millis(value@) == Some(v as int),
            None => time_millis(value@) is None,
        },
{
    let parts = split_at_char(value.as_str(), ':');
    proof {
        lemma_split_on_nonempty(value@, ':');
    }
    if parts.len() == 3 {
        let a = add_scaled_exec(Some(0), &parts[0], 3600000);
        let b = add_scaled_exec(a, &parts[1], 60000);
        add_scaled_exec(b, &parts[2], 1000)
    } else if parts.len() == 2 {
        let a = add_scaled_exec(Some(0), &parts[0], 60000);
        add_scaled_exec(a, &parts[1], 1000)
    } else {
        add_scaled_exec(Some(0), &parts[0], 1000)
    }
}

/// Renders an argument, or `None` where it cannot be rendered (a `time`
/// value that does not parse or overflows).
pub fn try_parse_type(param: &Parameter) -> (r: Option<String>)
    ensures
        match r {
            Some(s) => render_param(param@) == Some(s@),
            None => render_param(param@) is None,
        },
{
    let vt = param.var_type.as_str();
    if same_text(vt, "time") {
        match time_millis_exec(&param.value) {
            Some(t) => Some(i32_to_string(t)),
            None => None,
        }
    } else if same_text(vt, "str") {
        let mut s = String::new();
        push_char(&mut s, '"');
        push_str(&mut s, param.value.as_str());
        push_char(&mut s, '"');
        assert(s@ =~= quoted(param.value@));
        Some(s)
    } else if same_text(vt, "number") {
        Some(param.value.clone())
    } else if same_text(vt, "keyword") {
        let mut s = String::new();
        push_char(&mut s, '"');
        push_str(&mut s, "!#!KEYWORD:");
        push_str(&mut s, param.value.as_str());
        push_char(&mut s, '"');
        assert(s@ =~= quoted("!#!KEYWORD:"@ + param.value@));
        Some(s)
    } else {
        Some(String::new())
    }
}

/// Renders an argument into the generated code.
pub fn parse_type(param: Parameter) -> (r: String)
    requires
        render_param(param@) is Some,
    ensures
        Some(r@) == render_param(param@),
{
    match try_parse_type(&param) {
        Some(s) => s,
        None => String::new(),
    }
}

// ---------------------------------------------------------------------------
// Preset JSON
// ---------------------------------------------------------------------------

/// `s` with its last character removed (`String::pop`).
pub open spec fn pop_last(s: Seq<char>) -> Seq<char> {
    if s.len() > 0 {
        s.drop_last()
    } else {
        s
    }
}

/// Each argument rendered and followed by a comma.
pub open spec fn args_json(args: Seq<ParameterModel>) -> Option<Seq<char>>
    decreases args.len(),
{
    if args.len() == 0 {
        Some(Seq::empty())
    } else {
        match (args_json(args.drop_last()), render_param(args.last())) {
            (Some(a), Some(r)) => Some(a + r + seq![',']),
            _ => None,
        }
    }
}

/// The JSON object of a node: its tab number, then each child under its key,
/// a leaf as the array of its rendered arguments.
pub open spec fn node_json(n: NodeModel) -> Option<Seq<char>>
    decreases n, n.scope.len() + 1,
{
    match entries_json(n, n.scope.len() as int) {
        Some(e) => Some(
            (("{\"!#!nodeparam:tab_number\":"@ + signed_decimal(n.tab_number) + seq![',']
                + e).drop_last()).push('}'),
        ),
        None => None,
    }
}

/// The JSON members of the first `k` children of `n`, each with a comma.
pub open spec fn entries_json(n: NodeModel, k: int) -> Option<Seq<char>>
    decreases n, k,
{
    if k <= 0 || k > n.scope.len() {
        Some(Seq::empty())
    } else {
        let tag = n.scope[k - 1].0;
        let child = n.scope[k - 1].1;
        let entry = if child.scope.len() == 0 {
            match args_json(child.args) {
                Some(a) => Some(pop_last(seq!['"'] + tag + "\":["@ + a) + "],"@),
                None => None,
            }
        } else {
            match node_json(child) {
                Some(j) => Some(seq!['"'] + tag + "\":"@ + j + seq![',']),
                None => None,
            }
        };
        match (entries_json(n, k - 1), entry) {
            (Some(before), Some(e)) => Some(before + e),
            _ => None,
        }
    }
}

/// The member that stores a preset: `"<identifier>":<object>,`.
pub open spec fn preset_json(n: NodeModel, identifier: Seq<char>) -> Option<Seq<char>> {
    match node_json(n) {
        Some(j) => Some(seq!['"'] + identifier + "\":"@ + j + seq![',']),
        None => None,
    }
}

fn args_json_exec(args: &Vec<Parameter>) -> (r: Option<String>)
    ensures
        match r {
            Some(s) => args_json(params_model(args@)) == Some(s@),
            None => args_json(params_model(args@)) is None,
        },
{
    let mut out = String::new();
    let mut i: usize = 0;
    while i < args.len()
        invariant
            i <= args@.len(),
            args_json(params_model(args@.take(i as int))) == Some(out@),
        decreases args@.len() - i,
    {
        proof {
            assert(params_model(args@.take(i + 1)).drop_last() =~= params_model(args@.take(i as int)));
            assert(params_model(args@.take(i + 1)).last() == args@[i as int]@);
        }
        match try_parse_type(&args[i]) {
            None => {
                proof {
                    lemma_args_json_none(params_model(args@), i as int + 1);
                    assert(params_model(args@).take(i + 1) =~= params_model(args@.take(i + 1)));
                }
                return None;
            },
            Some(s) => {
                push_str(&mut out, s.as_str());
                push_char(&mut out, ',');
            },
        }
        i = i + 1;
    }
    assert(args@.take(args@.len() as int) =~= args@);
    Some(out)
}

proof fn lemma_args_json_none(args: Seq<ParameterModel>, k: int)
    requires
        0 <= k <= args.len(),
        args_json(args.take(k)) is None,
    ensures
        args_json(args) is None,
    decreases args.len() - k,
{
    if k < args.len() {
        assert(args.take(k + 1).drop_last() =~= args.take(k));
        lemma_args_json_none(args, k + 1);
    } else {
        assert(args.take(k) =~= args);
    }
}

proof fn lemma_entries_json_none(n: NodeModel, k: int)
    requires
        0 <= k <= n.scope.len(),
        entries_json(n, k) is None,
    ensures
        entries_json(n, n.scope.len() as int) is None,
    decreases n.scope.len() - k,
{
    if k < n.scope.len() {
        lemma_entries_json_none(n, k + 1);
    }
}

fn node_json_exec(n: &Node) -> (r: Option<String>)
    ensures
        match r {
            Some(s) => node_json(n.model()) == Some(s@),
            None => node_json(n.model()) is None,
        },
    decreases n,
{
    let ghost m = n.model();
    let mut out = String::new();
    let mut i: usize = 0;
    while i < n.scope.len()
        invariant
            m == n.model(),
            i <= n.scope@.len(),
            entries_json(m, i as int) == Some(out@),
        decreases n.scope@.len() - i,
    {
        let tag = &n.scope[i].0;
        let child = &n.scope[i].1;
        proof {
            assert(m.scope[i as int] == (tag@, child.model()));
        }
        if child.scope.len() == 0 {
            match args_json_exec(&child.args) {
                None => {
                    proof {
                        lemma_entries_json_none(m, i as int + 1);
                    }
                    return None;
                },
                Some(a) => {
                    let mut e = String::new();
                    push_char(&mut e, '"');
                    push_str(&mut e, tag.as_str());
                    push_str(&mut e, "\":[");
                    push_str(&mut e, a.as_str());
                    let _ = pop_char(&mut e);
                    push_str(&mut e, "],");
                    assert(e@ =~= pop_last(seq!['"'] + tag@ + "\":["@ + a@) + "],"@);
                    push_str(&mut out, e.as_str());
                },
            }
        } else {
            match node_json_exec(child) {
                None => {
                    proof {
                        lemma_entries_json_none(m, i as int + 1);
                    }
                    return None;
                },
                Some(j) => {
                    push_char(&mut out, '"');
                    push_str(&mut out, tag.as_str());
                    push_str(&mut out, "\":");
                    push_str(&mut out, j.as_str());
                    push_char(&mut out, ',');
                },
            }
        }
        i = i + 1;
        assert(entries_json(m, i as int) == Some(out@));
    }
    let mut s = String::new();
    push_str(&mut s, "{\"!#!nodeparam:tab_number\":");
    let t = i32_to_string(n.tab_number);
    push_str(&mut s, t.as_str());
    push_char(&mut s, ',');
    push_str(&mut s, out.as_str());
    let _ = pop_char(&mut s);
    push_char(&mut s, '}');
    Some(s)
}

/// The JSON member that stores `the_node` as the preset `identifier`, or
/// `None` where an argument cannot be rendered.
pub fn try_node_to_json_preset(the_node: &Node, identifier: &String) -> (r: Option<String>)
    ensures
        match r {
            Some(s) => preset_json(the_node.model(), identifier@) == Some(s@),
            None => preset_json(the_node.model(), identifier@) is None,
        },
{
    match node_json_exec(the_node) {
        None => None,
        Some(j) => {
            let mut s = String::new();
            push_char(&mut s, '"');
            push_str(&mut s, identifier.as_str());
            push_str(&mut s, "\":");
            push_str(&mut s, j.as_str());
            push_char(&mut s, ',');
            Some(s)
        },
    }
}

/// The JSON member that stores `the_node` as the preset `identifier`.
pub fn node_to_json_preset(the_node: Node, identifier: String) -> (r: String)
    requires
        preset_json(the_node.model(), identifier@) is Some,
    ensures
        Some(r@) == preset_json(the_node.model(), identifier@),
{
    match try_node_to_json_preset(&the_node, &identifier) {
        Some(s) => s,
        None => String::new(),
    }
}

} // verus!
