//! Properties of how template arguments are typed and rendered, how the
//! `HEADERS` dictionary is written, and how an inserted file's path is read,
//! stated over the characters involved.
use vstd::prelude::*;
use crate::arena::{add_child, SlotModel};
use crate::datatypes::NodeModel;
use crate::parser::{
    end_line, is_blank, new_line, run_chars, run_line, step_char, LineModel, ParseModel,
};
use crate::effects::{effect, header_text, step_of, EffectModel, PathStepModel};
use crate::laws::{lemma_decimal_value, lemma_digit_char, lemma_step_keeps_root, root_open, tabs};
use crate::parserutilities::{determine_type, render_param, time_millis};
use crate::datatypes::ParameterModel;
use crate::text::{
    alphabetic_char, ascii_upper, char_is_whitespace, decimal, digit_char, is_ascii, numeric_char, parse_i32_spec,
    signed_decimal, split_on, upper_text,
};

verus! {

// ---------------------------------------------------------------------------
// The parts of a `PATH`
// ---------------------------------------------------------------------------

/// Only the part `..` of a `PATH` goes up to the parent directory; every
/// other part (`.` and the empty part included) goes into the entry of that
/// name.
pub proof fn lemma_only_dot_dot_goes_up(path: Seq<char>)
    ensures
        forall|i: int|
            0 <= i < split_on(path, '/').len() ==> {
                let part = #[trigger] split_on(path, '/')[i];
                &&& (step_of(part) == PathStepModel::Up <==> part == ".."@)
                &&& (part != ".."@ ==> step_of(part) == PathStepModel::Into(part))
            },
        forall|p: Seq<char>|
            #![trigger step_of(p)]
            p != ".."@ ==> step_of(p) == PathStepModel::Into(p),
        step_of(".."@) == PathStepModel::Up,
{
}

// ---------------------------------------------------------------------------
// Argument types
// ---------------------------------------------------------------------------

pub open spec fn all_ascii(s: Seq<char>) -> bool {
    forall|i: int| 0 <= i < s.len() ==> is_ascii(#[trigger] s[i])
}

/// An ASCII argument (not forced to a string) without `:` that holds a
/// lower-case letter is a `str`, never a `keyword`.
pub proof fn lemma_lower_case_words_are_strings(raw: Seq<char>, i: int)
    requires
        all_ascii(raw),
        !raw.contains(':'),
        0 <= i < raw.len(),
        'a' <= raw[i] && raw[i] <= 'z',
    ensures
        determine_type(raw, false) == "str"@,
{
    assert(is_ascii(raw[i]));
    assert(!numeric_char(raw[i]));
    if numeric_char(raw.last()) {
        assert(!crate::parserutilities::is_number_char(raw[i]));
    } else {
        let u = upper_text(raw);
        assert(u == raw.map_values(|c: char| ascii_upper(c)));
        assert(u[i] == ascii_upper(raw[i]));
        assert(ascii_upper(raw[i]) != raw[i]);
        assert(u != raw);
    }
}

/// An argument (not forced to a string) made of upper-case ASCII letters
/// only is a `keyword`.
pub proof fn lemma_upper_case_words_are_keywords(raw: Seq<char>)
    requires
        raw.len() > 0,
        forall|i: int| 0 <= i < raw.len() ==> 'A' <= #[trigger] raw[i] && raw[i] <= 'Z',
    ensures
        determine_type(raw, false) == "keyword"@,
{
    assert(!raw.contains(':')) by {
        if raw.contains(':') {
            let i = choose|i: int| 0 <= i < raw.len() && raw[i] == ':';
            assert('A' <= raw[i]);
        }
    }
    assert(!numeric_char(raw.last())) by {
        assert('A' <= raw[raw.len() - 1]);
    }
    assert(all_ascii(raw));
    assert(upper_text(raw) =~= raw) by {
        assert(upper_text(raw) == raw.map_values(|c: char| ascii_upper(c)));
    }
    assert(crate::parserutilities::all_alphabetic(raw));
}

/// An argument (not forced to a string) made of ASCII digits only is a
/// `number`; one holding a `:` is a `time`; a quoted one is always a `str`.
pub proof fn lemma_numbers_times_and_strings(raw: Seq<char>)
    ensures
        raw.len() > 0 && (forall|i: int| 0 <= i < raw.len() ==> '0' <= #[trigger] raw[i] && raw[i] <= '9')
            ==> determine_type(raw, false) == "number"@,
        raw.contains(':') ==> determine_type(raw, false) == "time"@,
        determine_type(raw, true) == "str"@,
{
    if raw.len() > 0 && (forall|i: int| 0 <= i < raw.len() ==> '0' <= #[trigger] raw[i] && raw[i] <= '9') {
        assert(!raw.contains(':')) by {
            if raw.contains(':') {
                let i = choose|i: int| 0 <= i < raw.len() && raw[i] == ':';
                assert('0' <= raw[i] && raw[i] <= '9');
            }
        }
        assert('0' <= raw[raw.len() - 1]);
        assert(crate::parserutilities::all_number_chars(raw)) by {
            assert forall|i: int| 0 <= i < raw.len() implies crate::parserutilities::is_number_char(#[trigger] raw[i]) by {
                assert('0' <= raw[i] && raw[i] <= '9');
            }
        }
    }
}

// ---------------------------------------------------------------------------
// Time values
// ---------------------------------------------------------------------------

proof fn lemma_decimal_digits(n: nat)
    ensures
        decimal(n).len() > 0,
        forall|i: int| 0 <= i < decimal(n).len() ==> '0' <= #[trigger] decimal(n)[i] && decimal(n)[i] <= '9',
    decreases n,
{
    if n < 10 {
        lemma_digit_char(n);
    } else {
        lemma_decimal_digits(n / 10);
        lemma_digit_char(n % 10);
        let d = decimal(n / 10);
        assert forall|i: int| 0 <= i < decimal(n).len() implies '0' <= #[trigger] decimal(n)[i] && decimal(n)[i] <= '9' by {
            if i < d.len() {
                assert(decimal(n)[i] == d[i]);
            }
        }
    }
}

/// A number written in decimal parses back to itself.
proof fn lemma_parse_decimal(n: nat)
    requires
        n <= i32::MAX,
    ensures
        parse_i32_spec(decimal(n)) == Some(n as int),
        !decimal(n).contains(':'),
{
    lemma_decimal_digits(n);
    lemma_decimal_value(n);
    let d = decimal(n);
    assert(d[0] != '-' && d[0] != '+');
    assert(crate::text::all_ascii_digits(d));
    assert(!d.contains(':')) by {
        if d.contains(':') {
            let i = choose|i: int| 0 <= i < d.len() && d[i] == ':';
            assert('0' <= d[i]);
        }
    }
}

proof fn lemma_split_plain(s: Seq<char>, t: Seq<char>, sep: char)
    requires
        !t.contains(sep),
    ensures
        split_on(s + t, sep) == split_on(s, sep).update(
            split_on(s, sep).len() - 1,
            split_on(s, sep).last() + t,
        ),
    decreases t.len(),
{
    crate::text::lemma_split_on_nonempty(s, sep);
    if t.len() == 0 {
        assert(s + t =~= s);
        assert(split_on(s, sep).last() + t =~= split_on(s, sep).last());
        assert(split_on(s, sep).update(split_on(s, sep).len() - 1, split_on(s, sep).last())
            =~= split_on(s, sep));
    } else {
        assert(!t.drop_last().contains(sep)) by {
            if t.drop_last().contains(sep) {
                let i = choose|i: int| 0 <= i < t.drop_last().len() && t.drop_last()[i] == sep;
                assert(t[i] == sep);
            }
        }
        lemma_split_plain(s, t.drop_last(), sep);
        assert((s + t).drop_last() =~= s + t.drop_last());
        assert((s + t).last() == t.last());
        assert(t.last() != sep) by {
            assert(t[t.len() - 1] == t.last());
        }
        let r = split_on(s, sep);
        let r1 = r.update(r.len() - 1, r.last() + t.drop_last());
        assert(r1.last().push(t.last()) =~= r.last() + t);
        assert(r1.update(r1.len() - 1, r1.last().push(t.last())) =~= r.update(r.len() - 1, r.last() + t));
    }
}

proof fn lemma_split_sep(s: Seq<char>, sep: char)
    ensures
        split_on(s.push(sep), sep) == split_on(s, sep).push(Seq::<char>::empty()),
{
    assert(s.push(sep).drop_last() =~= s);
}

proof fn lemma_split_one(a: Seq<char>, sep: char)
    requires
        !a.contains(sep),
    ensures
        split_on(a, sep) == seq![a],
{
    lemma_split_plain(Seq::empty(), a, sep);
    assert(Seq::<char>::empty() + a =~= a);
    assert(seq![Seq::<char>::empty()].update(0, Seq::<char>::empty() + a) =~= seq![a]);
}

proof fn lemma_split_more(s: Seq<char>, b: Seq<char>, sep: char)
    requires
        !b.contains(sep),
    ensures
        split_on(s.push(sep) + b, sep) == split_on(s, sep).push(b),
{
    lemma_split_sep(s, sep);
    lemma_split_plain(s.push(sep), b, sep);
    let r = split_on(s, sep).push(Seq::<char>::empty());
    assert(Seq::<char>::empty() + b =~= b);
    assert(r.update(r.len() - 1, r.last() + b) =~= split_on(s, sep).push(b));
}

/// A time `h:m:s` written in decimal is `h` hours, `m` minutes and `s`
/// seconds, in milliseconds, and is rendered as that number.
pub proof fn lemma_time_hours_minutes_seconds(h: nat, m: nat, s: nat)
    requires
        3600000 * h + 60000 * m + 1000 * s <= i32::MAX,
    ensures
        ({
            let v = decimal(h).push(':') + decimal(m) + seq![':'] + decimal(s);
            &&& time_millis(v) == Some((3600000 * h + 60000 * m + 1000 * s) as int)
            &&& render_param(ParameterModel { value: v, var_type: "time"@ }) == Some(
                signed_decimal((3600000 * h + 60000 * m + 1000 * s) as int),
            )
        }),
{
    lemma_parse_decimal(h);
    lemma_parse_decimal(m);
    lemma_parse_decimal(s);
    let a = decimal(h);
    let b = decimal(m);
    let c = decimal(s);
    lemma_split_one(a, ':');
    lemma_split_more(a, b, ':');
    assert((a.push(':') + b).push(':') + c =~= a.push(':') + b + seq![':'] + c);
    lemma_split_more(a.push(':') + b, c, ':');
    assert(split_on(a.push(':') + b + seq![':'] + c, ':') =~= seq![a, b, c]);
}

/// A time `m:s` written in decimal is `m` minutes and `s` seconds, in
/// milliseconds.
pub proof fn lemma_time_minutes_seconds(m: nat, s: nat)
    requires
        60000 * m + 1000 * s <= i32::MAX,
    ensures
        time_millis(decimal(m).push(':') + decimal(s)) == Some((60000 * m + 1000 * s) as int),
{
    lemma_parse_decimal(m);
    lemma_parse_decimal(s);
    let a = decimal(m);
    let b = decimal(s);
    lemma_split_one(a, ':');
    lemma_split_more(a, b, ':');
    assert(split_on(a.push(':') + b, ':') =~= seq![a, b]);
}

/// A time without `:` written in decimal is that many seconds, in
/// milliseconds.
pub proof fn lemma_time_seconds(s: nat)
    requires
        1000 * s <= i32::MAX,
    ensures
        time_millis(decimal(s)) == Some((1000 * s) as int),
{
    lemma_parse_decimal(s);
    lemma_split_one(decimal(s), ':');
}

// ---------------------------------------------------------------------------
// The HEADERS dictionary
// ---------------------------------------------------------------------------

/// A `HEADERS` template with one leaf child writes that child's key and the
/// rendering of its first argument by its type (a `number` as written, a
/// `str` in quotes, a `time` in milliseconds), and its call prints it.
pub proof fn lemma_headers_write_the_rendered_argument(n: NodeModel, is_preset: bool, file_path: Seq<char>)
    requires
        n.scope.len() == 1,
        n.scope[0].1.scope.len() == 0,
        n.scope[0].1.args.len() > 0,
        render_param(n.scope[0].1.args[0]) is Some,
    ensures
        ({
            let key = n.scope[0].0;
            let arg = n.scope[0].1.args[0];
            let text = "{"@ + " \""@ + key + "\" : "@ + render_param(arg).unwrap() + ","@ + " }"@;
            &&& header_text(n) == Some(text)
            &&& n.value == "HEADERS"@ ==> effect(n, is_preset, file_path) == EffectModel::Print(
                "set_headers("@ + text + ");"@,
            )
            &&& arg.var_type == "number"@ ==> render_param(arg) == Some(arg.value)
            &&& arg.var_type == "str"@ ==> render_param(arg) == Some(seq!['"'] + arg.value + seq!['"'])
        }),
{
    reveal_strlit("time");
    reveal_strlit("str");
    reveal_strlit("number");
    reveal_strlit("keyword");
    reveal_strlit("TEXT_GLOBAL");
    reveal_strlit("INSERT");
    reveal_strlit("MIME");
    reveal_strlit("HEADERS");
    assert("HEADERS"@ != "TEXT_GLOBAL"@) by {
        assert("HEADERS"@.len() != "TEXT_GLOBAL"@.len());
    }
    assert("HEADERS"@ != "INSERT"@) by {
        assert("HEADERS"@.len() != "INSERT"@.len());
    }
    assert("HEADERS"@ != "MIME"@) by {
        assert("HEADERS"@.len() != "MIME"@.len());
    }
    assert("number"@ != "time"@) by {
        assert("number"@.len() != "time"@.len());
    }
    assert("number"@ != "str"@) by {
        assert("number"@.len() != "str"@.len());
    }
    assert("str"@ != "time"@) by {
        assert("str"@.len() != "time"@.len());
    }
    let e0 = crate::effects::header_entries(n, 0);
    assert(e0 == Some(Seq::<char>::empty()));
    let key = n.scope[0].0;
    let r = render_param(n.scope[0].1.args[0]).unwrap();
    assert(crate::effects::header_entries(n, 1) == Some(Seq::<char>::empty() + " \""@ + key + "\" : "@ + r + ","@));
    assert(Seq::<char>::empty() + " \""@ + key + "\" : "@ + r + ","@ =~= " \""@ + key + "\" : "@ + r + ","@);
    assert("{"@ + (" \""@ + key + "\" : "@ + r + ","@) + " }"@ =~= "{"@ + " \""@ + key + "\" : "@ + r + ","@ + " }"@);
}

/// A `HEADERS` template with two leaf children writes them in scope order,
/// each as its key and the rendering of its first argument.
pub proof fn lemma_headers_keep_scope_order(n: NodeModel)
    requires
        n.scope.len() == 2,
        n.scope[0].1.scope.len() == 0,
        n.scope[1].1.scope.len() == 0,
        n.scope[0].1.args.len() > 0,
        n.scope[1].1.args.len() > 0,
        render_param(n.scope[0].1.args[0]) is Some,
        render_param(n.scope[1].1.args[0]) is Some,
    ensures
        header_text(n) == Some(
            "{"@ + " \""@ + n.scope[0].0 + "\" : "@ + render_param(n.scope[0].1.args[0]).unwrap() + ","@
                + " \""@ + n.scope[1].0 + "\" : "@ + render_param(n.scope[1].1.args[0]).unwrap() + ","@
                + " }"@,
        ),
{
    let k0 = n.scope[0].0;
    let k1 = n.scope[1].0;
    let r0 = render_param(n.scope[0].1.args[0]).unwrap();
    let r1 = render_param(n.scope[1].1.args[0]).unwrap();
    assert(crate::effects::header_entries(n, 0) == Some(Seq::<char>::empty()));
    let e1 = Seq::<char>::empty() + " \""@ + k0 + "\" : "@ + r0 + ","@;
    assert(crate::effects::header_entries(n, 1) == Some(e1));
    let e2 = e1 + " \""@ + k1 + "\" : "@ + r1 + ","@;
    assert(crate::effects::header_entries(n, 2) == Some(e2));
    assert("{"@ + e2 + " }"@ =~= "{"@ + " \""@ + k0 + "\" : "@ + r0 + ","@ + " \""@ + k1 + "\" : "@ + r1
        + ","@ + " }"@);
}

// ---------------------------------------------------------------------------
// Template lines
// ---------------------------------------------------------------------------

/// A character that stands for itself in a template name or argument: no
/// white space, quote, comment sign, brace, `$`, `?` or `:`.
pub open spec fn word_char(c: char) -> bool {
    &&& !char_is_whitespace(c)
    &&& c != '"' && c != '#' && c != '{' && c != '}' && c != '$' && c != '?' && c != ':'
}

proof fn lemma_run_push(st: ParseModel, x: Seq<char>, c: char)
    ensures
        run_chars(st, x.push(c)) == step_char(run_chars(st, x).0, run_chars(st, x).1, c),
{
    assert(x.push(c).drop_last() =~= x);
}

/// The parser's state on a template line that has not changed the tree.
pub open spec fn on_line(a: ParseModel, st: ParseModel, tab: int) -> bool {
    &&& root_open(a, tab)
    &&& a.template
    &&& !a.substituting
    &&& a.arena == st.arena
}

/// Tabs at the start of a template line count its depth.
proof fn lemma_line_tabs(st: ParseModel, t: nat, tab: int)
    requires
        root_open(st, tab),
        tab < 0,
        st.template,
        !st.substituting,
    ensures
        on_line(run_chars(st, tabs(t)).0, st, tab),
        run_chars(st, tabs(t)).0.buf == st.buf,
        run_chars(st, tabs(t)).1 == (LineModel { tab: t as int, ..new_line() }),
    decreases t,
{
    if t == 0 {
        assert(tabs(0) =~= Seq::<char>::empty());
    } else {
        lemma_line_tabs(st, (t - 1) as nat, tab);
        assert(tabs(t) =~= tabs((t - 1) as nat).push('\t'));
        lemma_run_push(st, tabs((t - 1) as nat), '\t');
        let (a, b) = run_chars(st, tabs((t - 1) as nat));
        lemma_step_keeps_root(a, b, '\t', tab);
        assert(char_is_whitespace('\t'));
    }
}

/// The characters of a word are collected, each standing for itself.
proof fn lemma_line_word(st: ParseModel, pre: Seq<char>, cs: Seq<char>, tab: int)
    requires
        tab < 0,
        on_line(run_chars(st, pre).0, st, tab),
        run_chars(st, pre).1.tab >= 0,
        !run_chars(st, pre).1.quoting,
        !run_chars(st, pre).1.commenting,
        !run_chars(st, pre).1.force_string,
        forall|i: int|
            0 <= i < cs.len() ==> word_char(#[trigger] cs[i]) || (run_chars(st, pre).1.is_args
                && cs[i] == ':'),
    ensures
        on_line(run_chars(st, pre + cs).0, st, tab),
        run_chars(st, pre + cs).0.buf == run_chars(st, pre).0.buf + cs,
        run_chars(st, pre + cs).1 == run_chars(st, pre).1,
    decreases cs.len(),
{
    if cs.len() == 0 {
        assert(pre + cs =~= pre);
        assert(run_chars(st, pre).0.buf + cs =~= run_chars(st, pre).0.buf);
    } else {
        let c = cs.last();
        assert(word_char(cs[cs.len() - 1]) || (run_chars(st, pre).1.is_args && cs[cs.len() - 1] == ':'));
        lemma_line_word(st, pre, cs.drop_last(), tab);
        assert(pre + cs =~= (pre + cs.drop_last()).push(c));
        lemma_run_push(st, pre + cs.drop_last(), c);
        let (a, b) = run_chars(st, pre + cs.drop_last());
        lemma_step_keeps_root(a, b, c, tab);
        if c != ':' {
            assert(c != ' ' && c != '\t' && c != '\n') by {
                assert(char_is_whitespace(' '));
                assert(char_is_whitespace('\t'));
                assert(char_is_whitespace('\n'));
            }
        }
        assert(run_chars(st, pre).0.buf + cs =~= (run_chars(st, pre).0.buf + cs.drop_last()).push(c));
    }
}

/// Words, each after a space.
pub open spec fn spaced(ws: Seq<Seq<char>>) -> Seq<char>
    decreases ws.len(),
{
    if ws.len() == 0 {
        Seq::empty()
    } else {
        spaced(ws.drop_last()).push(' ') + ws.last()
    }
}

/// Words as the arguments of a template, each typed by its text.
pub open spec fn typed_words(ws: Seq<Seq<char>>) -> Seq<ParameterModel> {
    ws.map_values(|w: Seq<char>| ParameterModel { value: w, var_type: determine_type(w, false) })
}

/// Words of an argument list: not empty, and made of characters that stand
/// for themselves (or `:`).
pub open spec fn argument_words(ws: Seq<Seq<char>>) -> bool {
    forall|k: int|
        0 <= k < ws.len() ==> (#[trigger] ws[k]).len() > 0 && forall|i: int|
            0 <= i < ws[k].len() ==> word_char(#[trigger] ws[k][i]) || ws[k][i] == ':'
}

/// After the `:` of a template line, each space closes the word before it
/// as an argument, and the last word is held until the end of the line.
proof fn lemma_line_words(st: ParseModel, pre: Seq<char>, ws: Seq<Seq<char>>, tab: int)
    requires
        tab < 0,
        ws.len() > 0,
        argument_words(ws),
        on_line(run_chars(st, pre).0, st, tab),
        run_chars(st, pre).0.buf.len() == 0,
        run_chars(st, pre).1.tab >= 0,
        run_chars(st, pre).1.is_args,
        !run_chars(st, pre).1.quoting,
        !run_chars(st, pre).1.commenting,
        !run_chars(st, pre).1.force_string,
    ensures
        on_line(run_chars(st, pre + spaced(ws)).0, st, tab),
        run_chars(st, pre + spaced(ws)).0.buf == ws.last(),
        run_chars(st, pre + spaced(ws)).1 == (LineModel {
            args: run_chars(st, pre).1.args + typed_words(ws.drop_last()),
            ..run_chars(st, pre).1
        }),
    decreases ws.len(),
{
    assert(char_is_whitespace(' '));
    let (a0, b0) = run_chars(st, pre);
    let w = ws.last();
    assert(w.len() > 0 && forall|i: int| 0 <= i < w.len() ==> word_char(#[trigger] w[i]) || w[i] == ':') by {
        assert(ws[ws.len() - 1] == w);
    }
    let x = pre + spaced(ws.drop_last());
    if ws.len() == 1 {
        assert(spaced(ws.drop_last()) =~= Seq::<char>::empty());
        assert(x =~= pre);
        lemma_run_push(st, pre, ' ');
        lemma_step_keeps_root(a0, b0, ' ', tab);
        let (a1, b1) = run_chars(st, pre.push(' '));
        assert(b1 == b0);
        assert(a1.buf.len() == 0);
        lemma_line_word(st, pre.push(' '), w, tab);
        assert(pre + spaced(ws) =~= pre.push(' ') + w);
        assert(ws.drop_last() =~= Seq::<Seq<char>>::empty());
        assert(b0.args + typed_words(ws.drop_last()) =~= b0.args);
    } else {
        let ws0 = ws.drop_last();
        assert(argument_words(ws0)) by {
            assert forall|k: int| 0 <= k < ws0.len() implies (#[trigger] ws0[k]).len() > 0 && forall|i: int|
                0 <= i < ws0[k].len() ==> word_char(#[trigger] ws0[k][i]) || ws0[k][i] == ':' by {
                assert(ws0[k] == ws[k]);
            }
        }
        lemma_line_words(st, pre, ws0, tab);
        let (a1, b1) = run_chars(st, x);
        assert(a1.buf == ws0.last());
        assert(ws0.last().len() > 0) by {
            assert(ws0[ws0.len() - 1] == ws[ws.len() - 2]);
        }
        lemma_run_push(st, x, ' ');
        lemma_step_keeps_root(a1, b1, ' ', tab);
        let (a2, b2) = run_chars(st, x.push(' '));
        assert(b2 == LineModel { args: b1.args.push(crate::parser::typed_param(ws0.last(), false)), ..b1 });
        assert(a2.buf.len() == 0);
        lemma_line_word(st, x.push(' '), w, tab);
        assert(pre + spaced(ws) =~= x.push(' ') + w);
        assert(b0.args + typed_words(ws0.drop_last()) + seq![crate::parser::typed_param(ws0.last(), false)]
            =~= b0.args + typed_words(ws.drop_last())) by {
            assert(ws.drop_last() =~= ws0);
            assert(ws0 =~= ws0.drop_last().push(ws0.last()));
        }
        assert(b1.args.push(crate::parser::typed_param(ws0.last(), false)) =~= b1.args + seq![
            crate::parser::typed_param(ws0.last(), false),
        ]);
    }
}

/// A template line `NAME: W1 ... Wn` (after its tabs, and a `?` where the
/// template renders) adds one template to the tree: named `NAME`, at the
/// depth of its tabs, rendering exactly where the `?` stands, and holding the
/// words `W1`, ..., `Wn` as its arguments with every character kept (a `:`
/// in them included), each typed by its text.
pub proof fn lemma_template_line(
    st: ParseModel,
    tab: int,
    t: nat,
    render: bool,
    name: Seq<char>,
    ws: Seq<Seq<char>>,
)
    requires
        root_open(st, tab),
        tab < 0,
        st.template,
        !st.substituting,
        st.buf.len() == 0,
        name.len() > 0,
        forall|i: int| 0 <= i < name.len() ==> word_char(#[trigger] name[i]),
        ws.len() > 0,
        argument_words(ws),
    ensures
        ({
            let q = if render {
                seq!['?']
            } else {
                Seq::<char>::empty()
            };
            let st2 = run_line(st, tabs(t) + q + name + seq![':'] + spaced(ws));
            &&& !st2.stuck
            &&& st2.arena.len() == st.arena.len() + 1
            &&& st2.arena.last() == SlotModel {
                value: name,
                render,
                tab_number: t as int,
                args: typed_words(ws),
                children: Seq::empty(),
            }
        }),
{
    let q = if render {
        seq!['?']
    } else {
        Seq::<char>::empty()
    };
    assert(char_is_whitespace(' '));
    assert(char_is_whitespace('\n'));
    let p1 = tabs(t);
    lemma_line_tabs(st, t, tab);
    let p2 = p1 + q;
    if render {
        assert(p2 =~= p1.push('?'));
        lemma_run_push(st, p1, '?');
        let (a, b) = run_chars(st, p1);
        lemma_step_keeps_root(a, b, '?', tab);
    } else {
        assert(p2 =~= p1);
    }
    let (a2, b2) = run_chars(st, p2);
    assert(b2 == LineModel { tab: t as int, render, ..new_line() });
    assert(a2.buf.len() == 0);
    let p3 = p2 + name;
    lemma_line_word(st, p2, name, tab);
    let p4 = p3.push(':');
    lemma_run_push(st, p3, ':');
    let (a3, b3) = run_chars(st, p3);
    lemma_step_keeps_root(a3, b3, ':', tab);
    assert(a3.buf =~= name);
    let (a4, b4) = run_chars(st, p4);
    assert(b4 == LineModel { tab: t as int, render, value: name, is_args: true, ..new_line() });
    assert(a4.buf.len() == 0);
    let p6 = p4 + spaced(ws);
    lemma_line_words(st, p4, ws, tab);
    let (a6, b6) = run_chars(st, p6);
    assert(b6.args =~= typed_words(ws.drop_last())) by {
        assert(Seq::<ParameterModel>::empty() + typed_words(ws.drop_last()) =~= typed_words(ws.drop_last()));
    }
    let p7 = p6.push('\n');
    lemma_run_push(st, p6, '\n');
    lemma_step_keeps_root(a6, b6, '\n', tab);
    let (a7, b7) = run_chars(st, p7);
    assert(b7 == b6);
    assert(a7.buf == ws.last());
    assert(ws.last().len() > 0) by {
        assert(ws[ws.len() - 1] == ws.last());
    }
    let line = tabs(t) + q + name + seq![':'] + spaced(ws);
    assert(p7 =~= line.push('\n'));
    let lv = line.push('\n');
    assert(!is_blank(lv)) by {
        let k = p2.len() as int;
        assert(lv[k] == name[0]);
        assert(word_char(name[0]));
    }
    let top = a7.stack.last();
    assert(0 <= top < a7.arena.len());
    assert(typed_words(ws.drop_last()).push(crate::parser::typed_param(ws.last(), false)) =~= typed_words(ws)) by {
        assert(ws =~= ws.drop_last().push(ws.last()));
    }
}

} // verus!
