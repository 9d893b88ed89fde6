//! Properties that span the parser and the interpreter.
use vstd::prelude::*;
use crate::arena::{add_child, arena_wf, build, ChildModel, SlotModel};
use crate::datatypes::{
    assoc_get, assoc_has, assoc_insert, distinct_keys, first_index, lemma_first_index, model_keys,
    scopes_distinct, NodeModel,
};
use crate::interpreter::{
    children_interpretable, indexed, interp, interp_global, interp_scope, interpretable, visited,
    CallModel,
};
use crate::parser::{
    end_line, initial_state, name_char, new_line, parse_model, pop_if_deeper, root_slot, run_chars,
    is_blank, run_line, run_lines, step_char, template_char, text_char, text_slot, LineModel,
    ParseModel,
};
use crate::effects::{plan_fold, preset_file, preset_plan_model, presets_text};
use crate::jsondeserializer::{
    close_member, deserialize_model, insert_into_parent, json_initial, json_run, json_step,
    open_member, reset_morph, JsonModel, StructureType,
};
use crate::parserutilities::{args_json, entries_json, node_json, pop_last, preset_json, render_param};
use crate::text::{decimal, digit_char, digits_value, lines, signed_decimal};

verus! {

// ---------------------------------------------------------------------------
// A root with a negative depth is never closed
// ---------------------------------------------------------------------------

/// The root stays at the bottom of the stack and keeps its depth.
pub open spec fn root_open(st: ParseModel, tab: int) -> bool {
    &&& !st.stuck
    &&& st.stack.len() >= 1
    &&& st.stack[0] == 0
    &&& st.arena.len() >= 1
    &&& st.arena[0].tab_number == tab
    &&& forall|i: int| 0 <= i < st.stack.len() ==> 0 <= #[trigger] st.stack[i] < st.arena.len()
}

proof fn lemma_add_child_keeps_root(a: Seq<SlotModel>, p: int, k: Seq<char>, s: SlotModel)
    requires
        a.len() >= 1,
        0 <= p < a.len(),
    ensures
        add_child(a, p, k, s).len() == a.len() + 1,
        add_child(a, p, k, s)[0].tab_number == a[0].tab_number,
{
}

pub(crate) proof fn lemma_step_keeps_root(st: ParseModel, ls: LineModel, c: char, tab: int)
    requires
        root_open(st, tab),
        tab < 0,
        ls.tab >= 0,
    ensures
        root_open(step_char(st, ls, c).0, tab),
        step_char(st, ls, c).1.tab >= 0,
{
    if !st.template {
        if c == '$' && st.last == '\n' {
            lemma_add_child_keeps_root(st.arena, st.stack[0], decimal(st.arena[st.stack[0]].children.len()), text_slot(st.buf));
        }
    } else {
        let lsq = if c == '"' && st.last != '\\' {
            LineModel { quoting: !ls.quoting, ..ls }
        } else {
            ls
        };
        let st1 = ParseModel { buf: st.buf.push(c), ..st };
        let ls1 = LineModel { force_string: false, ..lsq };
        if st.stack.len() == 1 {
            assert(st.stack.last() == 0);
        }
        let sp = pop_if_deeper(st1, ls1);
        assert forall|i: int| 0 <= i < sp.stack.len() implies 0 <= #[trigger] sp.stack[i] < sp.arena.len() by {
            assert(sp.stack[i] == st.stack[i]);
        }
        assert(root_open(pop_if_deeper(st1, ls1), tab));
    }
}

proof fn lemma_run_chars_keeps_root(st: ParseModel, cs: Seq<char>, tab: int)
    requires
        root_open(st, tab),
        tab < 0,
    ensures
        root_open(run_chars(st, cs).0, tab),
        run_chars(st, cs).1.tab >= 0,
    decreases cs.len(),
{
    if cs.len() > 0 {
        lemma_run_chars_keeps_root(st, cs.drop_last(), tab);
        let (a, b) = run_chars(st, cs.drop_last());
        lemma_step_keeps_root(a, b, cs.last(), tab);
    }
}

proof fn lemma_run_lines_keeps_root(st: ParseModel, ls: Seq<Seq<char>>, tab: int)
    requires
        root_open(st, tab),
        tab < 0,
    ensures
        root_open(run_lines(st, ls), tab),
    decreases ls.len(),
{
    if ls.len() > 0 {
        lemma_run_lines_keeps_root(st, ls.drop_last(), tab);
        let s0 = run_lines(st, ls.drop_last());
        let lv = ls.last().push('\n');
        lemma_run_chars_keeps_root(s0, lv, tab);
        let (a, b) = run_chars(s0, lv);
        if !a.stuck && !b.commenting && a.template {
            let top = a.stack.last();
            let parent = a.arena[top];
            let key = if parent.value == "SCOPE_GLOBAL"@ {
                decimal(parent.children.len())
            } else {
                b.value
            };
            let args = if b.is_args && a.buf.len() > 0 {
                b.args.push(crate::parser::typed_param(a.buf, b.force_string))
            } else {
                b.args
            };
            let slot = SlotModel {
                value: b.value,
                render: b.render,
                tab_number: b.tab,
                args,
                children: Seq::empty(),
            };
            lemma_add_child_keeps_root(a.arena, top, key, slot);
            let e = end_line(a, b);
            assert forall|i: int| 0 <= i < e.stack.len() implies 0 <= #[trigger] e.stack[i] < e.arena.len() by {
                if i < a.stack.len() {
                    assert(e.stack[i] == a.stack[i]);
                }
            }
        }
    }
}

/// Parsing under a root whose `tab_number` is negative (the program's global
/// scope has -1) always succeeds: the root is never closed, so the stack of
/// open templates never runs empty.
pub proof fn lemma_negative_root_never_closes(src: Seq<char>, root: NodeModel)
    requires
        root.tab_number < 0,
    ensures
        parse_model(src, root) is Some,
{
    lemma_run_lines_keeps_root(initial_state(root), lines(src), root.tab_number);
}

// ---------------------------------------------------------------------------
// Parsed trees can be interpreted
// ---------------------------------------------------------------------------

/// Every `SCOPE_GLOBAL` node of the tree holds its children under the
/// indices `0`, `1`, ...
pub open spec fn all_indexed(n: NodeModel) -> bool
    decreases n,
{
    &&& (n.value == "SCOPE_GLOBAL"@ ==> indexed(n))
    &&& forall|k: int| 0 <= k < n.scope.len() ==> all_indexed(#[trigger] n.scope[k].1)
}

pub open spec fn child_keys(c: Seq<(Seq<char>, ChildModel)>) -> Seq<Seq<char>> {
    c.map_values(|e: (Seq<char>, ChildModel)| e.0)
}

pub open spec fn slot_indexed(s: SlotModel) -> bool {
    &&& (s.value == "SCOPE_GLOBAL"@ ==> forall|j: nat|
        j < s.children.len() ==> first_index(child_keys(s.children), #[trigger] decimal(j)) >= 0)
    &&& forall|k: int|
        0 <= k < s.children.len() ==> match #[trigger] s.children[k].1 {
            ChildModel::Given(m) => all_indexed(m),
            ChildModel::Built(_) => true,
        }
}

pub open spec fn arena_indexed(a: Seq<SlotModel>) -> bool {
    forall|i: int| 0 <= i < a.len() ==> slot_indexed(#[trigger] a[i])
}

pub open spec fn stack_in_range(st: ParseModel) -> bool {
    &&& st.arena.len() >= 1
    &&& forall|i: int| 0 <= i < st.stack.len() ==> 0 <= #[trigger] st.stack[i] < st.arena.len()
}

pub open spec fn indexed_state(st: ParseModel) -> bool {
    stack_in_range(st) && arena_indexed(st.arena) && arena_wf(st.arena)
}

proof fn lemma_present_iff(keys: Seq<Seq<char>>, x: Seq<char>)
    ensures
        first_index(keys, x) >= 0 <==> exists|j: int| 0 <= j < keys.len() && keys[j] == x,
{
    lemma_first_index(keys, x);
    if first_index(keys, x) >= 0 {
        let f = first_index(keys, x);
        assert(keys[f] == x);
    }
}

/// Inserting keeps the keys that were there and adds the new one.
proof fn lemma_insert_keys(c: Seq<(Seq<char>, ChildModel)>, k: Seq<char>, v: ChildModel, x: Seq<char>)
    ensures
        first_index(child_keys(c), x) >= 0 ==> first_index(child_keys(assoc_insert(c, k, v)), x) >= 0,
        first_index(child_keys(assoc_insert(c, k, v)), k) >= 0,
        first_index(child_keys(c), k) >= 0 ==> assoc_insert(c, k, v).len() == c.len(),
        first_index(child_keys(c), k) < 0 ==> assoc_insert(c, k, v).len() == c.len() + 1,
{
    let keys = child_keys(c);
    let d = assoc_insert(c, k, v);
    lemma_first_index(keys, k);
    lemma_present_iff(keys, x);
    lemma_present_iff(child_keys(d), x);
    lemma_present_iff(child_keys(d), k);
    let i = first_index(keys, k);
    if i < 0 {
        assert(child_keys(d) =~= keys.push(k));
        assert(child_keys(d)[c.len() as int] == k);
        if first_index(keys, x) >= 0 {
            let j = choose|j: int| 0 <= j < keys.len() && keys[j] == x;
            assert(child_keys(d)[j] == x);
        }
    } else {
        assert(child_keys(d) =~= keys);
    }
}

proof fn lemma_add_child_indexed(a: Seq<SlotModel>, p: int, k: Seq<char>, s: SlotModel)
    requires
        arena_indexed(a),
        0 <= p < a.len(),
        s.children.len() == 0,
        a[p].value == "SCOPE_GLOBAL"@ ==> k == decimal(a[p].children.len()),
    ensures
        arena_indexed(add_child(a, p, k, s)),
{
    let b = add_child(a, p, k, s);
    let c = a[p].children;
    let c2 = assoc_insert(c, k, ChildModel::Built(a.len()));
    assert(slot_indexed(a[p]));
    assert forall|i: int| 0 <= i < b.len() implies slot_indexed(#[trigger] b[i]) by {
        if i == p {
            assert(b[i].children == c2);
            if b[i].value == "SCOPE_GLOBAL"@ {
                assert forall|j: nat| j < c2.len() implies first_index(child_keys(c2), #[trigger] decimal(j)) >= 0 by {
                    lemma_insert_keys(c, k, ChildModel::Built(a.len()), decimal(j));
                    if j < c.len() {
                        assert(first_index(child_keys(c), decimal(j)) >= 0);
                    }
                }
            }
            assert forall|q: int| 0 <= q < c2.len() implies match #[trigger] c2[q].1 {
                ChildModel::Given(m) => all_indexed(m),
                ChildModel::Built(_) => true,
            } by {
                lemma_first_index(child_keys(c), k);
                if q < c.len() && c2[q] == c[q] {
                } else {
                    assert(c2[q].1 == ChildModel::Built(a.len()));
                }
            }
        } else if i < a.len() {
            assert(b[i] == a[i]);
        }
    }
}

proof fn lemma_step_indexed(st: ParseModel, ls: LineModel, c: char)
    requires
        indexed_state(st),
    ensures
        indexed_state(step_char(st, ls, c).0),
{
    if !st.stuck {
        if !st.template {
            if c == '$' && st.last == '\n' && st.stack.len() > 0 {
                let root = st.stack[0];
                lemma_add_child_indexed(st.arena, root, decimal(st.arena[root].children.len()), text_slot(st.buf));
                crate::parser::lemma_add_child_wf(st.arena, root, decimal(st.arena[root].children.len()), text_slot(st.buf));
            }
        } else {
            let lsq = if c == '"' && st.last != '\\' {
                LineModel { quoting: !ls.quoting, ..ls }
            } else {
                ls
            };
            let st1 = ParseModel { buf: st.buf.push(c), ..st };
            let ls1 = LineModel { force_string: false, ..lsq };
            let sp = pop_if_deeper(st1, ls1);
            assert forall|i: int| 0 <= i < sp.stack.len() implies 0 <= #[trigger] sp.stack[i] < sp.arena.len() by {
                assert(sp.stack[i] == st.stack[i]);
            }
        }
    }
}

proof fn lemma_run_chars_indexed(st: ParseModel, cs: Seq<char>)
    requires
        indexed_state(st),
    ensures
        indexed_state(run_chars(st, cs).0),
    decreases cs.len(),
{
    if cs.len() > 0 {
        lemma_run_chars_indexed(st, cs.drop_last());
        let (a, b) = run_chars(st, cs.drop_last());
        lemma_step_indexed(a, b, cs.last());
    }
}

proof fn lemma_run_lines_indexed(st: ParseModel, ls: Seq<Seq<char>>)
    requires
        indexed_state(st),
    ensures
        indexed_state(run_lines(st, ls)),
    decreases ls.len(),
{
    if ls.len() > 0 {
        lemma_run_lines_indexed(st, ls.drop_last());
        let s0 = run_lines(st, ls.drop_last());
        let lv = ls.last().push('\n');
        lemma_run_chars_indexed(s0, lv);
        let (a, b) = run_chars(s0, lv);
        if !a.stuck && !b.commenting && a.template && a.stack.len() > 0 {
            let top = a.stack.last();
            let parent = a.arena[top];
            let key = if parent.value == "SCOPE_GLOBAL"@ {
                decimal(parent.children.len())
            } else {
                b.value
            };
            let args = if b.is_args && a.buf.len() > 0 {
                b.args.push(crate::parser::typed_param(a.buf, b.force_string))
            } else {
                b.args
            };
            let slot = SlotModel {
                value: b.value,
                render: b.render,
                tab_number: b.tab,
                args,
                children: Seq::empty(),
            };
            lemma_add_child_indexed(a.arena, top, key, slot);
            crate::parser::lemma_add_child_wf(a.arena, top, key, slot);
            let e = end_line(a, b);
            assert forall|i: int| 0 <= i < e.stack.len() implies 0 <= #[trigger] e.stack[i] < e.arena.len() by {
                if i < a.stack.len() {
                    assert(e.stack[i] == a.stack[i]);
                }
            }
        }
    }
}

proof fn lemma_build_indexed(a: Seq<SlotModel>, i: int)
    requires
        arena_wf(a),
        arena_indexed(a),
    ensures
        all_indexed(build(a, i)),
    decreases a.len() - i,
{
    if 0 <= i < a.len() {
        let s = a[i];
        let n = build(a, i);
        assert(slot_indexed(s));
        assert(model_keys(n.scope) =~= child_keys(s.children));
        assert forall|k: int| 0 <= k < n.scope.len() implies all_indexed(#[trigger] n.scope[k].1) by {
            assert(s.children[k] == s.children[k]);
            match s.children[k].1 {
                ChildModel::Built(j) => {
                    if i < j < a.len() {
                        lemma_build_indexed(a, j as int);
                    }
                },
                ChildModel::Given(m) => {},
            }
        }
    }
}

proof fn lemma_indexed_interpretable(n: NodeModel)
    requires
        all_indexed(n),
    ensures
        interpretable(n),
    decreases n, n.scope.len() + 1,
{
    lemma_indexed_children(n, n.scope.len() as int);
}

proof fn lemma_indexed_children(n: NodeModel, k: int)
    requires
        all_indexed(n),
        0 <= k <= n.scope.len(),
    ensures
        children_interpretable(n, k),
    decreases n, k,
{
    if k > 0 {
        lemma_indexed_children(n, k - 1);
        let c = n.scope[k - 1].1;
        assert(all_indexed(c));
        lemma_indexed_interpretable(c);
    }
}

/// A tree parsed under a root whose `SCOPE_GLOBAL` nodes are keyed by index
/// (such as the program's empty global scope) can be interpreted: the
/// parser keys every child of a `SCOPE_GLOBAL` node by the next free index.
pub proof fn lemma_parsed_tree_is_interpretable(src: Seq<char>, root: NodeModel)
    requires
        all_indexed(root),
    ensures
        parse_model(src, root) matches Some(t) ==> all_indexed(t) && interpretable(t),
{
    let st0 = initial_state(root);
    let rs = root_slot(root);
    assert(child_keys(rs.children) =~= model_keys(root.scope));
    assert(slot_indexed(rs));
    assert(arena_indexed(st0.arena));
    assert(arena_wf(st0.arena));
    lemma_run_lines_indexed(st0, lines(src));
    let st = run_lines(st0, lines(src));
    if !st.stuck && st.stack.len() > 0 {
        lemma_build_indexed(st.arena, st.stack[0]);
        lemma_indexed_interpretable(build(st.arena, st.stack[0]));
    }
}



// ---------------------------------------------------------------------------
// Stored presets can be loaded by name
// ---------------------------------------------------------------------------

pub open spec fn json_special(c: char) -> bool {
    c == '{' || c == '}' || c == '[' || c == ']' || c == ',' || c == '"' || c == ':'
}

proof fn lemma_run_append(st: JsonModel, a: Seq<char>, b: Seq<char>)
    ensures
        json_run(st, a + b) == json_run(json_run(st, a), b),
    decreases b.len(),
{
    if b.len() == 0 {
        assert(a + b =~= a);
    } else {
        lemma_run_append(st, a, b.drop_last());
        assert((a + b).drop_last() =~= a + b.drop_last());
        assert((a + b).last() == b.last());
    }
}

proof fn lemma_run_one(st: JsonModel, c: char)
    ensures
        json_run(st, seq![c]) == json_step(st, c),
{
    reveal_with_fuel(json_run, 2);
    assert(seq![c].drop_last() =~= Seq::<char>::empty());
}

/// Outside quotes, ordinary characters are collected.
proof fn lemma_run_plain(st: JsonModel, s: Seq<char>)
    requires
        !st.stuck,
        !st.quoting,
        forall|i: int| 0 <= i < s.len() ==> !json_special(#[trigger] s[i]),
    ensures
        json_run(st, s) == (JsonModel {
            buf: st.buf + s,
            last: if s.len() > 0 {
                s.last()
            } else {
                st.last
            },
            ..st
        }),
    decreases s.len(),
{
    if s.len() == 0 {
        assert(st.buf + s =~= st.buf);
    } else {
        lemma_run_plain(st, s.drop_last());
        let prev = json_run(st, s.drop_last());
        let c = s.last();
        assert(!json_special(s[s.len() - 1]));
        assert(json_run(st, s) == json_step(prev, c));
        assert(prev.buf.push(c) =~= st.buf + s);
        assert(json_step(prev, c) == JsonModel { buf: prev.buf.push(c), last: c, ..prev });
    }
}

/// Inside quotes, every character but a quote is collected.
proof fn lemma_run_quoted(st: JsonModel, s: Seq<char>)
    requires
        !st.stuck,
        st.quoting,
        !s.contains('"'),
    ensures
        json_run(st, s) == (JsonModel {
            buf: st.buf + s,
            last: if s.len() > 0 {
                s.last()
            } else {
                st.last
            },
            ..st
        }),
    decreases s.len(),
{
    if s.len() == 0 {
        assert(st.buf + s =~= st.buf);
    } else {
        assert(!s.drop_last().contains('"')) by {
            if s.drop_last().contains('"') {
                let i = choose|i: int| 0 <= i < s.drop_last().len() && s.drop_last()[i] == '"';
                assert(s[i] == '"');
            }
        }
        lemma_run_quoted(st, s.drop_last());
        let prev = json_run(st, s.drop_last());
        let c = s.last();
        assert(s[s.len() - 1] != '"');
        assert(json_run(st, s) == json_step(prev, c));
        assert(prev.buf.push(c) =~= st.buf + s);
        assert(json_step(prev, c) == JsonModel { buf: prev.buf.push(c), last: c, ..prev });
    }
}

proof fn lemma_step_open_quote(st: JsonModel)
    requires
        !st.stuck,
        !st.quoting,
        st.last != '\\',
    ensures
        json_step(st, '"') == (JsonModel { quoting: true, last: '"', ..st }),
{
}

proof fn lemma_step_close_quote(st: JsonModel)
    requires
        !st.stuck,
        st.quoting,
    ensures
        json_step(st, '"') == (JsonModel { quoting: false, last: '"', ..st }),
{
}

proof fn lemma_step_colon(st: JsonModel)
    requires
        !st.stuck,
        !st.quoting,
    ensures
        json_step(st, ':') == (JsonModel {
            morph_value: st.buf,
            morph_kind: StructureType::Single,
            primitive: false,
            buf: Seq::empty(),
            last: ':',
            ..st
        }),
{
}

proof fn lemma_step_open_member(st: JsonModel)
    requires
        !st.stuck,
        !st.quoting,
        st.stack.len() == 2,
        st.stack.last().1 == StructureType::Object,
    ensures
        json_step(st, '{') == (JsonModel {
            arena: add_child(
                st.arena,
                st.stack.last().0,
                st.morph_value,
                crate::jsondeserializer::plain_slot(st.morph_value),
            ),
            stack: st.stack.push((st.arena.len() as int, StructureType::Object)),
            primitive: true,
            morph_value: Seq::empty(),
            morph_kind: StructureType::Single,
            morph_extra: Seq::empty(),
            last: '{',
            ..st
        }),
{
}

proof fn lemma_step_close_value(st: JsonModel, c: char)
    requires
        !st.stuck,
        !st.quoting,
        st.last != '}' && st.last != ']',
        !st.primitive,
        st.stack.len() > 0,
        st.morph_kind == StructureType::Single,
        st.morph_value != "!#!RENDER"@,
        c == '}' || c == ',',
    ensures
        json_step(st, c) == (JsonModel {
            stack: st.stack.drop_last(),
            buf: Seq::empty(),
            primitive: true,
            morph_value: Seq::empty(),
            morph_kind: StructureType::Single,
            morph_extra: Seq::empty(),
            last: c,
            ..st
        }),
{
}

proof fn lemma_step_after_close(st: JsonModel, sep: char)
    requires
        !st.stuck,
        !st.quoting,
        st.last == '}' || st.last == ']',
        sep == ',' || sep == '}',
    ensures
        json_step(st, sep) == (JsonModel {
            buf: Seq::empty(),
            primitive: true,
            morph_value: Seq::empty(),
            morph_kind: StructureType::Single,
            morph_extra: Seq::empty(),
            last: sep,
            ..st
        }),
{
}

/// Between presets: the outer object is open under the empty name, and the
/// presets read so far are its children.
pub open spec fn between_presets(st: JsonModel) -> bool {
    &&& !st.stuck
    &&& !st.quoting
    &&& st.buf.len() == 0
    &&& st.last != '\\'
    &&& st.stack == seq![(0int, StructureType::Object), (1int, StructureType::Object)]
    &&& st.arena.len() >= 2
    &&& st.arena[0].children == seq![(Seq::<char>::empty(), ChildModel::Built(1))]
    &&& st.arena[1].value.len() == 0
}

pub open spec fn tab_key() -> Seq<char> {
    "!#!nodeparam:tab_number"@
}

proof fn lemma_decimal_plain(n: nat)
    ensures
        forall|i: int| 0 <= i < decimal(n).len() ==> !json_special(#[trigger] decimal(n)[i]),
        decimal(n).len() > 0,
    decreases n,
{
    if n >= 10 {
        lemma_decimal_plain(n / 10);
        let d = decimal(n / 10);
        assert forall|i: int| 0 <= i < decimal(n).len() implies !json_special(#[trigger] decimal(n)[i]) by {
            if i < d.len() {
                assert(decimal(n)[i] == d[i]);
            }
        }
    }
}

proof fn lemma_signed_decimal_plain(n: int)
    ensures
        forall|i: int| 0 <= i < signed_decimal(n).len() ==> !json_special(#[trigger] signed_decimal(n)[i]),
        signed_decimal(n).len() > 0,
{
    if n < 0 {
        lemma_decimal_plain((-n) as nat);
        let d = decimal((-n) as nat);
        assert forall|i: int| 0 <= i < signed_decimal(n).len() implies !json_special(#[trigger] signed_decimal(n)[i]) by {
            if i > 0 {
                assert(signed_decimal(n)[i] == d[i - 1]);
            }
        }
    } else {
        lemma_decimal_plain(n as nat);
    }
}

/// The state after a member name and the `:{` that opens its object.
pub open spec fn after_name(st: JsonModel, v: Seq<char>) -> JsonModel {
    JsonModel {
        arena: add_child(st.arena, 1, v, crate::jsondeserializer::plain_slot(v)),
        stack: st.stack.push((st.arena.len() as int, StructureType::Object)),
        primitive: true,
        morph_value: Seq::empty(),
        morph_kind: StructureType::Single,
        morph_extra: Seq::empty(),
        quoting: true,
        last: '"',
        ..st
    }
}

proof fn lemma_read_name(st: JsonModel, v: Seq<char>)
    requires
        between_presets(st),
        !v.contains('"'),
    ensures
        json_run(st, seq!['"'] + v + seq!['"', ':', '{', '"']) == after_name(st, v),
{
    lemma_run_one(st, '"');
    lemma_step_open_quote(st);
    let s1 = json_step(st, '"');
    lemma_run_quoted(s1, v);
    let s2 = json_run(s1, v);
    assert(s2.buf =~= v);
    lemma_step_close_quote(s2);
    let s3 = json_step(s2, '"');
    lemma_step_colon(s3);
    let s4 = json_step(s3, ':');
    lemma_step_open_member(s4);
    let s5 = json_step(s4, '{');
    lemma_step_open_quote(s5);
    let s6 = json_step(s5, '"');
    assert(st.buf =~= Seq::<char>::empty());
    assert(s6 == after_name(st, v));
    lemma_run_one(s2, '"');
    lemma_run_one(s3, ':');
    lemma_run_one(s4, '{');
    lemma_run_one(s5, '"');
    lemma_run_append(s2, seq!['"'], seq![':']);
    lemma_run_append(s2, seq!['"', ':'], seq!['{']);
    lemma_run_append(s2, seq!['"', ':', '{'], seq!['"']);
    assert(seq!['"'] + seq![':'] =~= seq!['"', ':']);
    assert(seq!['"', ':'] + seq!['{'] =~= seq!['"', ':', '{']);
    assert(seq!['"', ':', '{'] + seq!['"'] =~= seq!['"', ':', '{', '"']);
    lemma_run_append(st, seq!['"'], v);
    lemma_run_append(st, seq!['"'] + v, seq!['"', ':', '{', '"']);
}

/// The state after the quoted tab number key and its `:`.
pub open spec fn after_key(st: JsonModel) -> JsonModel {
    JsonModel {
        morph_value: tab_key(),
        morph_kind: StructureType::Single,
        primitive: false,
        buf: Seq::empty(),
        quoting: false,
        last: ':',
        ..st
    }
}

proof fn lemma_tab_key_facts()
    ensures
        !tab_key().contains('"'),
        tab_key() != "!#!RENDER"@,
{
    reveal_strlit("!#!nodeparam:tab_number");
    reveal_strlit("!#!RENDER");
    assert(!tab_key().contains('"')) by {
        if tab_key().contains('"') {
            let i = choose|i: int| 0 <= i < tab_key().len() && tab_key()[i] == '"';
            assert(tab_key()[i] != '"');
        }
    }
    assert(tab_key() != "!#!RENDER"@) by {
        assert(tab_key().len() != "!#!RENDER"@.len());
    }
}

proof fn lemma_read_key(st: JsonModel)
    requires
        !st.stuck,
        st.quoting,
        st.buf.len() == 0,
    ensures
        json_run(st, tab_key() + seq!['"', ':']) == after_key(st),
{
    lemma_tab_key_facts();
    lemma_run_quoted(st, tab_key());
    let s7 = json_run(st, tab_key());
    assert(s7.buf =~= tab_key());
    lemma_step_close_quote(s7);
    let s8 = json_step(s7, '"');
    lemma_step_colon(s8);
    let s9 = json_step(s8, ':');
    assert(s9 == after_key(st));
    lemma_run_one(s7, '"');
    lemma_run_one(s8, ':');
    lemma_run_append(s7, seq!['"'], seq![':']);
    assert(seq!['"'] + seq![':'] =~= seq!['"', ':']);
    lemma_run_append(st, tab_key(), seq!['"', ':']);
}

/// The tab number of a stored object, then the `,` or `}` after it: the
/// reader takes it as a plain member and closes the object.
proof fn lemma_read_number(st: JsonModel, tab: int, c: char)
    requires
        !st.stuck,
        !st.quoting,
        !st.primitive,
        st.buf.len() == 0,
        st.stack.len() > 0,
        st.morph_kind == StructureType::Single,
        st.morph_value == tab_key(),
        c == ',' || c == '}',
    ensures
        json_run(st, signed_decimal(tab).push(c)) == (JsonModel {
            stack: st.stack.drop_last(),
            buf: Seq::empty(),
            primitive: true,
            morph_value: Seq::empty(),
            morph_kind: StructureType::Single,
            morph_extra: Seq::empty(),
            last: c,
            ..st
        }),
{
    lemma_tab_key_facts();
    let n = signed_decimal(tab);
    lemma_signed_decimal_plain(tab);
    lemma_run_plain(st, n);
    let s10 = json_run(st, n);
    assert(!json_special(n[n.len() - 1]));
    lemma_step_close_value(s10, c);
    lemma_run_push(st, n, c);
}

/// The tab number member of a stored object, from just after its opening
/// quote, then the `,` or `}` after it.
proof fn lemma_read_tab(st: JsonModel, tab: int, c: char)
    requires
        !st.stuck,
        st.quoting,
        st.buf.len() == 0,
        st.stack.len() > 0,
        c == ',' || c == '}',
    ensures
        json_run(st, tab_key() + seq!['"', ':'] + signed_decimal(tab).push(c)) == (JsonModel {
            stack: st.stack.drop_last(),
            buf: Seq::empty(),
            quoting: false,
            primitive: true,
            morph_value: Seq::empty(),
            morph_kind: StructureType::Single,
            morph_extra: Seq::empty(),
            last: c,
            ..st
        }),
{
    lemma_read_key(st);
    lemma_read_number(after_key(st), tab, c);
    lemma_run_append(st, tab_key() + seq!['"', ':'], signed_decimal(tab).push(c));
}

proof fn lemma_run_push(st: JsonModel, a: Seq<char>, c: char)
    ensures
        json_run(st, a.push(c)) == json_step(json_run(st, a), c),
{
    assert(a.push(c).drop_last() =~= a);
}

/// A quoted name without `"` inside is collected.
proof fn lemma_read_quoted(st: JsonModel, v: Seq<char>)
    requires
        !st.stuck,
        !st.quoting,
        st.last != '\\',
        st.buf.len() == 0,
        !v.contains('"'),
    ensures
        json_run(st, seq!['"'] + v + seq!['"']) == (JsonModel {
            buf: v,
            quoting: false,
            last: '"',
            ..st
        }),
{
    lemma_run_one(st, '"');
    lemma_step_open_quote(st);
    let s1 = json_step(st, '"');
    lemma_run_quoted(s1, v);
    let s2 = json_run(s1, v);
    assert(s2.buf =~= v);
    lemma_step_close_quote(s2);
    lemma_run_append(st, seq!['"'], v);
    lemma_run_push(st, seq!['"'] + v, '"');
    assert((seq!['"'] + v).push('"') =~= seq!['"'] + v + seq!['"']);
}

// ---------------------------------------------------------------------------
// What the stored text carries
// ---------------------------------------------------------------------------

/// A rendered argument that the reader takes as one value: text without JSON
/// punctuation, or a double-quoted string with no quote inside.
pub open spec fn single_value(r: Seq<char>) -> bool {
    ||| forall|i: int| 0 <= i < r.len() ==> !json_special(#[trigger] r[i])
    ||| (r.len() >= 2 && r[0] == '"' && r.last() == '"' && !r.subrange(1, r.len() - 1).contains('"'))
}

/// A leaf below a preset that the stored text carries: exactly one argument,
/// rendered as a single value.
pub open spec fn storable_leaf(c: NodeModel) -> bool {
    &&& c.args.len() == 1
    &&& render_param(c.args[0]) matches Some(r)
    &&& single_value(r)
}

/// The first `k` children of `n` are carried by the stored text: their keys
/// hold no `"`, a leaf is storable, and any other child is storable in turn.
pub open spec fn storable_upto(n: NodeModel, k: int) -> bool
    decreases n, k,
{
    if k <= 0 || k > n.scope.len() {
        true
    } else {
        let tag = n.scope[k - 1].0;
        let c = n.scope[k - 1].1;
        &&& storable_upto(n, k - 1)
        &&& !tag.contains('"')
        &&& if c.scope.len() == 0 {
            storable_leaf(c)
        } else {
            storable(c)
        }
    }
}

/// Every node below `n` is carried by the stored text.
pub open spec fn storable(n: NodeModel) -> bool
    decreases n, n.scope.len() + 1,
{
    storable_upto(n, n.scope.len() as int)
}

/// The presets of a `NEW_PRESETS` template that the stored text carries by
/// name: their names hold no `"`, and every node below them is storable
/// (each leaf holds exactly one argument that is rendered as a single value).
pub open spec fn storable_presets(np: NodeModel) -> bool {
    forall|i: int|
        0 <= i < np.scope.len() ==> !(#[trigger] np.scope[i]).1.value.contains('"') && storable(
            np.scope[i].1,
        )
}

/// The stored member of one child: a leaf as the array of its arguments,
/// any other child as its object (as `entries_json` writes them).
pub open spec fn entry_of(tag: Seq<char>, child: NodeModel) -> Option<Seq<char>> {
    if child.scope.len() == 0 {
        match args_json(child.args) {
            Some(a) => Some(pop_last(seq!['"'] + tag + "\":["@ + a) + "],"@),
            None => None,
        }
    } else {
        match node_json(child) {
            Some(j) => Some(seq!['"'] + tag + "\":"@ + j + seq![',']),
            None => None,
        }
    }
}

/// Every key read so far under the empty name is still there.
pub open spec fn keeps_keys(a: JsonModel, b: JsonModel) -> bool {
    forall|x: Seq<char>|
        #[trigger] assoc_has(a.arena[1].children, x) ==> assoc_has(b.arena[1].children, x)
}

proof fn lemma_keeps_trans(a: JsonModel, b: JsonModel, c: JsonModel)
    requires
        keeps_keys(a, b),
        keeps_keys(b, c),
    ensures
        keeps_keys(a, c),
{
    assert forall|x: Seq<char>| #[trigger] assoc_has(a.arena[1].children, x) implies assoc_has(
        c.arena[1].children,
        x,
    ) by {
        assert(assoc_has(b.arena[1].children, x));
    }
}

proof fn lemma_keeps_insert(a: JsonModel, b: JsonModel, k: Seq<char>, v: ChildModel)
    requires
        b.arena[1].children == assoc_insert(a.arena[1].children, k, v),
    ensures
        keeps_keys(a, b),
        assoc_has(b.arena[1].children, k),
{
    assert forall|x: Seq<char>| #[trigger] assoc_has(a.arena[1].children, x) implies assoc_has(
        b.arena[1].children,
        x,
    ) by {
        lemma_insert_keys(a.arena[1].children, k, v, x);
    }
    lemma_insert_keys(a.arena[1].children, k, v, k);
}

proof fn lemma_strlits()
    ensures
        "\":"@ == seq!['"', ':'],
        "\":["@ == seq!['"', ':', '['],
        "],"@ == seq![']', ','],
        "{\"!#!nodeparam:tab_number\":"@ == seq!['{', '"'] + tab_key() + seq!['"', ':'],
        "GLOBAL_JSON_NODE"@.len() > 0,
        "!#!RENDER"@.len() > 0,
{
    reveal_strlit("\":");
    reveal_strlit("\":[");
    reveal_strlit("],");
    reveal_strlit("{\"!#!nodeparam:tab_number\":");
    reveal_strlit("!#!nodeparam:tab_number");
    reveal_strlit("GLOBAL_JSON_NODE");
    reveal_strlit("!#!RENDER");
    assert("{\"!#!nodeparam:tab_number\":"@ =~= seq!['{', '"'] + tab_key() + seq!['"', ':']);
}

/// Reading one stored leaf, `"<tag>":[<value>]`, then `,` or `}`, adds the
/// tag under the empty name.
#[verifier::rlimit(30)]
#[verifier::spinoff_prover]
proof fn lemma_read_leaf(st: JsonModel, tag: Seq<char>, r: Seq<char>, sep: char)
    requires
        between_presets(st),
        !tag.contains('"'),
        single_value(r),
        sep == ',' || sep == '}',
    ensures
        ({
            let st2 = json_run(st, seq!['"'] + tag + seq!['"', ':', '['] + r + seq![']', sep]);
            &&& between_presets(st2)
            &&& st2.last == sep
            &&& st2.arena[1].children == assoc_insert(
                st.arena[1].children,
                tag,
                ChildModel::Built(st.arena.len()),
            )
        }),
{
    lemma_strlits();
    let m = st.arena.len();
    lemma_read_quoted(st, tag);
    let s1 = json_run(st, seq!['"'] + tag + seq!['"']);
    lemma_step_colon(s1);
    let s2 = json_step(s1, ':');
    lemma_run_push(st, seq!['"'] + tag + seq!['"'], ':');
    let s3 = json_step(s2, '[');
    lemma_run_push(st, (seq!['"'] + tag + seq!['"']).push(':'), '[');
    let a3 = (seq!['"'] + tag + seq!['"']).push(':').push('[');
    assert(a3 =~= seq!['"'] + tag + seq!['"', ':', '[']);
    let arena3 = add_child(st.arena, 1, tag, crate::jsondeserializer::plain_slot(tag));
    assert(st.arena[1].value != "GLOBAL_JSON_NODE"@);
    assert(s3.arena == arena3);
    assert(s3.stack == st.stack.push((m as int, StructureType::Array)));
    assert(!s3.stuck && !s3.quoting && s3.primitive && s3.last == '[' && s3.buf.len() == 0);
    assert(s3.morph_extra.len() == 0);
    let s4 = json_run(s3, r);
    if forall|i: int| 0 <= i < r.len() ==> !json_special(#[trigger] r[i]) {
        lemma_run_plain(s3, r);
        assert(s4.last != '}' && s4.last != ']') by {
            if r.len() > 0 {
                assert(!json_special(r[r.len() - 1]));
            }
        }
    } else {
        let inner = r.subrange(1, r.len() - 1);
        assert(r =~= seq!['"'] + inner + seq!['"']);
        lemma_read_quoted(s3, inner);
    }
    assert(!s4.stuck && !s4.quoting && s4.primitive && s4.last != '}' && s4.last != ']');
    assert(s4.stack == s3.stack && s4.arena == s3.arena);
    let s5 = json_step(s4, ']');
    assert(s5.stack == st.stack);
    assert(s5.arena.len() == m + 1);
    assert(s5.arena[1] == arena3[1]);
    assert(s5.arena[0] == st.arena[0]);
    assert(!s5.stuck && !s5.quoting && s5.last == ']');
    lemma_step_after_close(s5, sep);
    let s6 = json_step(s5, sep);
    lemma_run_append(st, a3, r);
    lemma_run_push(st, a3 + r, ']');
    lemma_run_push(st, (a3 + r).push(']'), sep);
    assert((a3 + r).push(']').push(sep) =~= seq!['"'] + tag + seq!['"', ':', '['] + r + seq![']', sep]);
}

/// Reading the stored member of a child, with its final comma replaced by
/// `sep`, keeps the keys read so far and adds the child's key.
proof fn lemma_read_entry(st: JsonModel, tag: Seq<char>, child: NodeModel, sep: char)
    requires
        between_presets(st),
        !tag.contains('"'),
        if child.scope.len() == 0 {
            storable_leaf(child)
        } else {
            storable(child)
        },
        sep == ',' || sep == '}',
    ensures
        entry_of(tag, child) matches Some(t) && t.len() > 0 && t.last() == ',' && ({
            let st2 = json_run(st, t.drop_last().push(sep));
            &&& between_presets(st2)
            &&& st2.last == sep
            &&& keeps_keys(st, st2)
            &&& assoc_has(st2.arena[1].children, tag)
        }),
    decreases child, child.scope.len() + 2,
{
    lemma_strlits();
    if child.scope.len() == 0 {
        let r = render_param(child.args[0]).unwrap();
        assert(child.args.drop_last().len() == 0);
        assert(args_json(child.args.drop_last()) == Some(Seq::<char>::empty()));
        assert(args_json(child.args) == Some(Seq::<char>::empty() + r + seq![',']));
        let t = entry_of(tag, child).unwrap();
        assert(t =~= seq!['"'] + tag + seq!['"', ':', '['] + r + seq![']', ',']);
        assert(t.drop_last().push(sep) =~= seq!['"'] + tag + seq!['"', ':', '['] + r + seq![']', sep]);
        lemma_read_leaf(st, tag, r, sep);
        let st2 = json_run(st, t.drop_last().push(sep));
        lemma_keeps_insert(st, st2, tag, ChildModel::Built(st.arena.len()));
    } else {
        lemma_read_object(st, tag, child, sep);
        let j = node_json(child).unwrap();
        let t = entry_of(tag, child).unwrap();
        assert(t.drop_last().push(sep) =~= seq!['"'] + tag + seq!['"', ':'] + j + seq![sep]);
    }
}

/// Reading the stored members of the first `k` children of `n` keeps the
/// keys read so far.
proof fn lemma_read_entries(st: JsonModel, n: NodeModel, k: int)
    requires
        between_presets(st),
        0 <= k <= n.scope.len(),
        storable_upto(n, k),
    ensures
        entries_json(n, k) matches Some(e) && ({
            let st2 = json_run(st, e);
            &&& between_presets(st2)
            &&& keeps_keys(st, st2)
            &&& (k > 0 ==> st2.last == ',')
        }),
    decreases n, k + 1,
{
    if k == 0 {
        assert(json_run(st, Seq::<char>::empty()) == st);
    } else {
        lemma_read_entries(st, n, k - 1);
        let e0 = entries_json(n, k - 1).unwrap();
        let s1 = json_run(st, e0);
        let tag = n.scope[k - 1].0;
        let child = n.scope[k - 1].1;
        lemma_read_entry(s1, tag, child, ',');
        let t = entry_of(tag, child).unwrap();
        assert(t.drop_last().push(',') =~= t);
        assert(entries_json(n, k) == Some(e0 + t));
        lemma_run_append(st, e0, t);
        lemma_keeps_trans(st, s1, json_run(s1, t));
    }
}

/// Reading a member name, the `:{` that opens its object and its tab number
/// member, then `,` or `}`: the object is added under the empty name and
/// closed again.
proof fn lemma_read_head(st: JsonModel, v: Seq<char>, tab: int, c: char)
    requires
        between_presets(st),
        !v.contains('"'),
        c == ',' || c == '}',
    ensures
        ({
            let st2 = json_run(
                st,
                seq!['"'] + v + seq!['"', ':', '{', '"'] + tab_key() + seq!['"', ':']
                    + signed_decimal(tab).push(c),
            );
            &&& between_presets(st2)
            &&& st2.last == c
            &&& st2.arena[1].children == assoc_insert(
                st.arena[1].children,
                v,
                ChildModel::Built(st.arena.len()),
            )
        }),
{
    let head = seq!['"'] + v + seq!['"', ':', '{', '"'];
    let tail = tab_key() + seq!['"', ':'] + signed_decimal(tab).push(c);
    lemma_read_name(st, v);
    let s6 = after_name(st, v);
    lemma_read_tab(s6, tab, c);
    assert(s6.stack.drop_last() =~= st.stack);
    lemma_run_append(st, head, tail);
    assert(head + tail =~= seq!['"'] + v + seq!['"', ':', '{', '"'] + tab_key() + seq!['"', ':']
        + signed_decimal(tab).push(c));
}

/// The stored object of a node with children: its tab number member, the
/// members of all children but the last, and the last one closed by `}`.
proof fn lemma_object_text(p: NodeModel)
    requires
        p.scope.len() > 0,
        entries_json(p, p.scope.len() - 1) is Some,
        entry_of(p.scope[p.scope.len() - 1].0, p.scope[p.scope.len() - 1].1) matches Some(t)
            && t.len() > 0 && t.last() == ',',
    ensures
        node_json(p) == Some(
            seq!['{', '"'] + tab_key() + seq!['"', ':'] + signed_decimal(p.tab_number).push(',')
                + entries_json(p, p.scope.len() - 1).unwrap() + entry_of(
                p.scope[p.scope.len() - 1].0,
                p.scope[p.scope.len() - 1].1,
            ).unwrap().drop_last().push('}'),
        ),
{
    lemma_strlits();
    let len = p.scope.len() as int;
    let e0 = entries_json(p, len - 1).unwrap();
    let t = entry_of(p.scope[len - 1].0, p.scope[len - 1].1).unwrap();
    assert(entries_json(p, len) == Some(e0 + t));
    let lit = "{\"!#!nodeparam:tab_number\":"@;
    let tn = signed_decimal(p.tab_number);
    assert(((lit + tn + seq![','] + (e0 + t)).drop_last()).push('}') =~= seq!['{', '"'] + tab_key()
        + seq!['"', ':'] + tn.push(',') + e0 + t.drop_last().push('}'));
}

/// Reading the stored member `"<v>":<object of p>`, then `,` or `}`, keeps the
/// keys read so far and adds `v`; the members below `p` land beside it.
#[verifier::rlimit(30)]
#[verifier::spinoff_prover]
proof fn lemma_read_object(st: JsonModel, v: Seq<char>, p: NodeModel, sep: char)
    requires
        between_presets(st),
        !v.contains('"'),
        storable(p),
        sep == ',' || sep == '}',
    ensures
        node_json(p) matches Some(j) && ({
            let st2 = json_run(st, seq!['"'] + v + seq!['"', ':'] + j + seq![sep]);
            &&& between_presets(st2)
            &&& st2.last == sep
            &&& keeps_keys(st, st2)
            &&& assoc_has(st2.arena[1].children, v)
        }),
    decreases p, p.scope.len() + 1,
{
    let len = p.scope.len() as int;
    let tn = signed_decimal(p.tab_number);
    let name = seq!['"'] + v + seq!['"', ':'];
    let open = seq!['{', '"'] + tab_key() + seq!['"', ':'];
    if len == 0 {
        lemma_strlits();
        assert(entries_json(p, 0) == Some(Seq::<char>::empty()));
        let j = node_json(p).unwrap();
        assert(j =~= open + tn.push('}'));
        lemma_read_head(st, v, p.tab_number, '}');
        let a = name + open + tn.push('}');
        assert(a =~= seq!['"'] + v + seq!['"', ':', '{', '"'] + tab_key() + seq!['"', ':'] + tn.push('}'));
        let s7 = json_run(st, a);
        lemma_step_after_close(s7, sep);
        lemma_run_push(st, a, sep);
        assert(a.push(sep) =~= name + j + seq![sep]);
        lemma_keeps_insert(st, json_step(s7, sep), v, ChildModel::Built(st.arena.len()));
    } else {
        let a = name + open + tn.push(',');
        lemma_read_head(st, v, p.tab_number, ',');
        assert(a =~= seq!['"'] + v + seq!['"', ':', '{', '"'] + tab_key() + seq!['"', ':'] + tn.push(','));
        let s7 = json_run(st, a);
        lemma_keeps_insert(st, s7, v, ChildModel::Built(st.arena.len()));
        assert(storable_upto(p, len - 1));
        lemma_read_entries(s7, p, len - 1);
        let e0 = entries_json(p, len - 1).unwrap();
        let s8 = json_run(s7, e0);
        let tag = p.scope[len - 1].0;
        let child = p.scope[len - 1].1;
        lemma_read_entry(s8, tag, child, '}');
        let t = entry_of(tag, child).unwrap();
        let b = t.drop_last().push('}');
        let s9 = json_run(s8, b);
        lemma_step_after_close(s9, sep);
        let st2 = json_step(s9, sep);
        lemma_object_text(p);
        let j = node_json(p).unwrap();
        lemma_run_append(st, a, e0);
        lemma_run_append(st, a + e0, b);
        lemma_run_push(st, a + e0 + b, sep);
        assert((a + e0 + b).push(sep) =~= name + j + seq![sep]);
        lemma_keeps_trans(st, s7, s8);
        lemma_keeps_trans(st, s8, s9);
        lemma_keeps_trans(st, s9, st2);
        assert(assoc_has(s7.arena[1].children, v));
    }
}

/// The state after the opening `{` of the stored text.
pub open spec fn opened() -> JsonModel {
    json_step(crate::jsondeserializer::json_initial(), '{')
}

proof fn lemma_opened()
    ensures
        between_presets(opened()),
        opened().arena[1].children.len() == 0,
{
    let o = opened();
    assert(o.arena[0].children =~= seq![(Seq::<char>::empty(), ChildModel::Built(1))]);
    assert(o.stack =~= seq![(0int, StructureType::Object), (1int, StructureType::Object)]);
}

/// Reading the stored members of the first `k` presets finds each by name.
proof fn lemma_read_presets(np: NodeModel, k: int)
    requires
        storable_presets(np),
        0 <= k <= np.scope.len(),
    ensures
        presets_text(np, k) matches Some(t) && ({
            let st = json_run(opened(), t);
            &&& between_presets(st)
            &&& forall|i: int|
                0 <= i < k ==> assoc_has(st.arena[1].children, #[trigger] np.scope[i].1.value)
        }),
    decreases k,
{
    lemma_opened();
    if k == 0 {
        assert(json_run(opened(), Seq::<char>::empty()) == opened());
    } else {
        lemma_strlits();
        lemma_read_presets(np, k - 1);
        let t0 = presets_text(np, k - 1).unwrap();
        let s0 = json_run(opened(), t0);
        let p = np.scope[k - 1].1;
        lemma_read_object(s0, p.value, p, ',');
        let j = node_json(p).unwrap();
        let c = seq!['"'] + p.value + seq!['"', ':'] + j + seq![','];
        assert(preset_json(p, p.value) == Some(c));
        lemma_run_append(opened(), t0, c);
        let st = json_run(s0, c);
        assert forall|i: int| 0 <= i < k implies assoc_has(st.arena[1].children, #[trigger] np.scope[i].1.value) by {
            if i < k - 1 {
                assert(assoc_has(s0.arena[1].children, np.scope[i].1.value));
            }
        }
    }
}

/// What reading the stored text of `np` gives back.
pub open spec fn stored_presets(np: NodeModel) -> Option<NodeModel> {
    match preset_file(np) {
        Some(f) => deserialize_model(f),
        None => None,
    }
}

proof fn lemma_final_read(st: JsonModel)
    requires
        between_presets(st) || (!st.stuck && st.arena.len() >= 2 && st.arena[0].children == seq![(Seq::<char>::empty(), ChildModel::Built(1))]),
    ensures
        assoc_has(st.arena[0].children, Seq::<char>::empty()),
        assoc_get(st.arena[0].children, Seq::<char>::empty()) == ChildModel::Built(1),
{
    let c = st.arena[0].children;
    let keys = c.map_values(|e: (Seq<char>, ChildModel)| e.0);
    assert(keys =~= seq![Seq::<char>::empty()]);
    assert(keys.drop_last() =~= Seq::<Seq<char>>::empty());
    reveal_with_fuel(first_index, 2);
    assert(first_index(keys, Seq::<char>::empty()) == 0);
}

/// The state that reading the whole stored text of `np` ends in.
proof fn lemma_read_empty(np: NodeModel) -> (st: JsonModel)
    requires
        np.scope.len() == 0,
    ensures
        preset_file(np) matches Some(f) && json_run(crate::jsondeserializer::json_initial(), f) == st,
        !st.stuck,
        st.arena.len() >= 2,
        st.arena[0].children == seq![(Seq::<char>::empty(), ChildModel::Built(1))],
{
    lemma_opened();
    reveal_strlit("{");
    reveal_strlit("}");
    let init = crate::jsondeserializer::json_initial();
    lemma_run_one(init, '{');
    let f = seq!['{', '}'];
    assert(preset_file(np) == Some(f)) by {
        assert(presets_text(np, 0) == Some(Seq::<char>::empty()));
        assert("{"@ + pop_last(Seq::<char>::empty()) + "}"@ =~= f);
    }
    lemma_run_append(init, seq!['{'], seq!['}']);
    lemma_run_one(opened(), '}');
    assert(seq!['{'] + seq!['}'] =~= f);
    reveal_strlit("!#!RENDER");
    let o = opened();
    assert(o.primitive && o.last == '{' && !o.quoting && o.stack.len() == 2);
    assert(o.buf != "!#!RENDER"@) by {
        assert(o.buf.len() != "!#!RENDER"@.len());
    }
    let st = json_step(o, '}');
    assert(!st.stuck && st.arena == opened().arena);
    st
}

/// The stored text of presets: `{`, the members of all presets but the last,
/// and the last one closed by `}`.
proof fn lemma_file_text(np: NodeModel)
    requires
        np.scope.len() > 0,
        presets_text(np, np.scope.len() - 1) is Some,
        node_json(np.scope[np.scope.len() - 1].1) is Some,
    ensures
        preset_file(np) == Some(
            seq!['{'] + presets_text(np, np.scope.len() - 1).unwrap() + seq!['"']
                + np.scope[np.scope.len() - 1].1.value + seq!['"', ':'] + node_json(
                np.scope[np.scope.len() - 1].1,
            ).unwrap() + seq!['}'],
        ),
{
    lemma_strlits();
    reveal_strlit("{");
    reveal_strlit("}");
    let n = np.scope.len() as int;
    let t0 = presets_text(np, n - 1).unwrap();
    let p = np.scope[n - 1].1;
    let j = node_json(p).unwrap();
    let c = seq!['"'] + p.value + seq!['"', ':'] + j + seq![','];
    assert(preset_json(p, p.value) == Some(c));
    assert(presets_text(np, n) == Some(t0 + c));
    assert("{"@ + pop_last(t0 + c) + "}"@ =~= seq!['{'] + t0 + seq!['"'] + p.value + seq!['"', ':'] + j
        + seq!['}']);
}

proof fn lemma_read_nonempty(np: NodeModel) -> (st: JsonModel)
    requires
        storable_presets(np),
        np.scope.len() > 0,
    ensures
        preset_file(np) matches Some(f) && json_run(crate::jsondeserializer::json_initial(), f) == st,
        between_presets(st),
        forall|i: int|
            0 <= i < np.scope.len() ==> assoc_has(st.arena[1].children, #[trigger] np.scope[i].1.value),
{
    let n = np.scope.len() as int;
    lemma_opened();
    let init = crate::jsondeserializer::json_initial();
    lemma_run_one(init, '{');
    lemma_read_presets(np, n - 1);
    let t0 = presets_text(np, n - 1).unwrap();
    let s0 = json_run(opened(), t0);
    let p = np.scope[n - 1].1;
    lemma_read_object(s0, p.value, p, '}');
    let j = node_json(p).unwrap();
    let last = seq!['"'] + p.value + seq!['"', ':'] + j + seq!['}'];
    lemma_file_text(np);
    let f = preset_file(np).unwrap();
    assert(f =~= seq!['{'] + (t0 + last));
    lemma_run_append(opened(), t0, last);
    lemma_run_append(init, seq!['{'], t0 + last);
    let st = json_run(init, f);
    assert forall|i: int| 0 <= i < n implies assoc_has(st.arena[1].children, #[trigger] np.scope[i].1.value) by {
        if i < n - 1 {
            assert(assoc_has(s0.arena[1].children, np.scope[i].1.value));
        }
    }
    st
}

/// Presets stored by a `NEW_PRESETS` template are found by name when the
/// stored text is read back, where their names hold no `"` and each leaf
/// below them holds one argument rendered as a single value. (The reader
/// closes a stored object at its first plain member, so the members below a
/// preset land beside it in the outer object; a leaf without an argument, or
/// with several, closes the outer object too, and the presets after it are
/// lost.)
pub proof fn lemma_saved_presets_load_by_name(np: NodeModel)
    requires
        storable_presets(np),
    ensures
        stored_presets(np) is Some,
        forall|i: int|
            0 <= i < np.scope.len() ==> assoc_has(
                stored_presets(np).unwrap().scope,
                #[trigger] np.scope[i].1.value,
            ),
{
    if np.scope.len() == 0 {
        let st = lemma_read_empty(np);
        lemma_final_read(st);
    } else {
        let st = lemma_read_nonempty(np);
        lemma_final_read(st);
        let j = build(st.arena, 1);
        assert(stored_presets(np) == Some(j));
        assert(model_keys(j.scope) =~= child_keys(st.arena[1].children));
    }
}

proof fn lemma_plan_all_found(n: NodeModel, j: NodeModel, file_path: Seq<char>, k: int)
    requires
        0 <= k <= n.scope.len(),
        forall|q: int| 0 <= q < n.scope.len() ==> assoc_has(j.scope, #[trigger] n.scope[q].0),
    ensures
        plan_fold(n, j, file_path, k).1 is None,
        plan_fold(n, j, file_path, k).0.len() == k,
    decreases k,
{
    if k > 0 {
        lemma_plan_all_found(n, j, file_path, k - 1);
    }
}

/// Once a `NEW_PRESETS` template of storable presets has been stored, a
/// `PRESET` template whose children name stored presets loads one preset for
/// each child and reports no error.
pub proof fn lemma_stored_presets_can_be_rendered(
    np: NodeModel,
    request: NodeModel,
    file_path: Seq<char>,
)
    requires
        storable_presets(np),
        forall|k: int|
            0 <= k < request.scope.len() ==> exists|i: int|
                0 <= i < np.scope.len() && np.scope[i].1.value == #[trigger] request.scope[k].0,
    ensures
        preset_file(np) matches Some(f) && preset_plan_model(request, Some(f), file_path).1 is None
            && preset_plan_model(request, Some(f), file_path).0.len() == request.scope.len(),
{
    lemma_saved_presets_load_by_name(np);
    reveal_strlit("{");
    let f = preset_file(np).unwrap();
    assert(f.len() > 0);
    assert(f != Seq::<char>::empty());
    let j = stored_presets(np).unwrap();
    assert forall|q: int| 0 <= q < request.scope.len() implies assoc_has(j.scope, #[trigger] request.scope[q].0) by {
        let i = choose|i: int| 0 <= i < np.scope.len() && np.scope[i].1.value == request.scope[q].0;
        assert(assoc_has(j.scope, np.scope[i].1.value));
    }
    lemma_plan_all_found(request, j, file_path, request.scope.len() as int);
}

// ---------------------------------------------------------------------------
// Scopes hold each key once
// ---------------------------------------------------------------------------

/// Inserting into a scope without repeated keys gives one without repeated
/// keys, whose entries are the inserted one and entries from before.
pub proof fn lemma_insert_distinct<V>(s: Seq<(Seq<char>, V)>, k: Seq<char>, v: V)
    requires
        distinct_keys(s),
    ensures
        distinct_keys(assoc_insert(s, k, v)),
        forall|i: int|
            0 <= i < assoc_insert(s, k, v).len() ==> #[trigger] assoc_insert(s, k, v)[i] == (k, v)
                || (i < s.len() && assoc_insert(s, k, v)[i] == s[i]),
{
    let keys = s.map_values(|e: (Seq<char>, V)| e.0);
    lemma_first_index(keys, k);
    let i = first_index(keys, k);
    let t = assoc_insert(s, k, v);
    if i < 0 {
        assert forall|a: int, b: int| 0 <= a < b < t.len() implies t[a].0 != t[b].0 by {
            assert(keys[a] == s[a].0);
            if b < s.len() {
                assert(keys[b] == s[b].0);
            }
        }
    } else {
        assert forall|a: int, b: int| 0 <= a < b < t.len() implies t[a].0 != t[b].0 by {
            assert(keys[a] == s[a].0);
            assert(keys[b] == s[b].0);
        }
    }
}

/// A scope without repeated keys whose nodes hold each key once throughout.
pub open spec fn entries_distinct(ns: Seq<(Seq<char>, NodeModel)>) -> bool {
    &&& distinct_keys(ns)
    &&& forall|k: int| 0 <= k < ns.len() ==> scopes_distinct(#[trigger] ns[k].1)
}

proof fn lemma_insert_entries_distinct(ns: Seq<(Seq<char>, NodeModel)>, k: Seq<char>, v: NodeModel)
    requires
        entries_distinct(ns),
        scopes_distinct(v),
    ensures
        entries_distinct(assoc_insert(ns, k, v)),
{
    lemma_insert_distinct(ns, k, v);
    let t = assoc_insert(ns, k, v);
    assert forall|q: int| 0 <= q < t.len() implies scopes_distinct(#[trigger] t[q].1) by {
        if t[q] != (k, v) {
            assert(t[q] == ns[q]);
        }
    }
}

proof fn lemma_visited_distinct(
    parent_render: bool,
    c: NodeModel,
    p: bool,
    ns: Seq<(Seq<char>, NodeModel)>,
    cs: Seq<CallModel>,
    sub: (NodeModel, Seq<CallModel>),
)
    requires
        entries_distinct(ns),
        c.scope.len() > 0 ==> scopes_distinct(sub.0),
    ensures
        entries_distinct(visited(parent_render, c, p, ns, cs, sub).0),
{
    if c.scope.len() == 0 {
        assert(scopes_distinct(c));
        lemma_insert_entries_distinct(ns, c.value, c);
    } else {
        lemma_insert_entries_distinct(ns, c.value, sub.0);
    }
}

proof fn lemma_interp_scope_distinct(parent: NodeModel, p: bool, k: int)
    ensures
        entries_distinct(interp_scope(parent, p, k).1),
    decreases parent, k,
{
    if k <= 0 || k > parent.scope.len() {
    } else {
        lemma_interp_scope_distinct(parent, p, k - 1);
        let (p0, ns, cs) = interp_scope(parent, p, k - 1);
        let c = parent.scope[k - 1].1;
        if c.value != Seq::<char>::empty() {
            let p1 = if c.value == "NEW_PRESETS"@ {
                true
            } else {
                p0
            };
            lemma_interp_distinct(c, p1);
            lemma_visited_distinct(parent.render, c, p1, ns, cs, interp(c, p1));
        }
    }
}

proof fn lemma_interp_global_distinct(parent: NodeModel, p: bool, k: int)
    ensures
        entries_distinct(interp_global(parent, p, k).1),
    decreases parent, k,
{
    if k <= 0 || k > parent.scope.len() {
    } else {
        lemma_interp_global_distinct(parent, p, k - 1);
        let (_, ns, cs) = interp_global(parent, p, k - 1);
        let idx = first_index(model_keys(parent.scope), decimal((k - 1) as nat));
        if 0 <= idx < parent.scope.len() {
            let c = parent.scope[idx].1;
            lemma_interp_distinct(c, p);
            lemma_visited_distinct(parent.render, c, p, ns, cs, interp(c, p));
        }
    }
}

/// Interpreting a node rebuilds every scope below it keyed by template
/// name, so each key occurs at most once in every scope of the result,
/// whatever the node it starts from.
pub proof fn lemma_interp_distinct(n: NodeModel, p: bool)
    ensures
        scopes_distinct(interp(n, p).0),
    decreases n, n.scope.len() + 1,
{
    let ns = if n.value == "SCOPE_GLOBAL"@ {
        lemma_interp_global_distinct(n, p, n.scope.len() as int);
        interp_global(n, p, n.scope.len() as int).1
    } else {
        lemma_interp_scope_distinct(n, p, n.scope.len() as int);
        interp_scope(n, p, n.scope.len() as int).1
    };
    assert(interp(n, p).0.scope == ns);
}

/// A slot whose children are keyed without repeats, and whose given
/// children hold each key once throughout.
pub open spec fn slot_distinct(s: SlotModel) -> bool {
    &&& distinct_keys(s.children)
    &&& forall|k: int|
        0 <= k < s.children.len() ==> match #[trigger] s.children[k].1 {
            ChildModel::Given(m) => scopes_distinct(m),
            ChildModel::Built(_) => true,
        }
}

pub open spec fn arena_distinct(a: Seq<SlotModel>) -> bool {
    forall|i: int| 0 <= i < a.len() ==> slot_distinct(#[trigger] a[i])
}

proof fn lemma_add_child_distinct(a: Seq<SlotModel>, p: int, k: Seq<char>, s: SlotModel)
    requires
        arena_distinct(a),
        0 <= p < a.len(),
        slot_distinct(s),
    ensures
        arena_distinct(add_child(a, p, k, s)),
{
    let b = add_child(a, p, k, s);
    let c = a[p].children;
    let c2 = assoc_insert(c, k, ChildModel::Built(a.len()));
    assert(slot_distinct(a[p]));
    lemma_insert_distinct(c, k, ChildModel::Built(a.len()));
    assert forall|i: int| 0 <= i < b.len() implies slot_distinct(#[trigger] b[i]) by {
        if i == p {
            assert(b[i].children == c2);
            assert forall|q: int| 0 <= q < c2.len() implies match #[trigger] c2[q].1 {
                ChildModel::Given(m) => scopes_distinct(m),
                ChildModel::Built(_) => true,
            } by {
                if c2[q] != (k, ChildModel::Built(a.len())) {
                    assert(c2[q] == c[q]);
                }
            }
        } else if i < a.len() {
            assert(b[i] == a[i]);
        } else {
            assert(b[i] == s);
        }
    }
}

proof fn lemma_build_distinct(a: Seq<SlotModel>, i: int)
    requires
        arena_distinct(a),
    ensures
        scopes_distinct(build(a, i)),
    decreases a.len() - i,
{
    let n = build(a, i);
    if 0 <= i < a.len() {
        let s = a[i];
        assert(slot_distinct(s));
        assert forall|x: int, y: int| 0 <= x < y < n.scope.len() implies n.scope[x].0 != n.scope[y].0 by {
            assert(n.scope[x].0 == s.children[x].0);
            assert(n.scope[y].0 == s.children[y].0);
        }
        assert forall|k: int| 0 <= k < n.scope.len() implies scopes_distinct(#[trigger] n.scope[k].1) by {
            assert(s.children[k] == s.children[k]);
            match s.children[k].1 {
                ChildModel::Built(j) => {
                    if i < j < a.len() {
                        lemma_build_distinct(a, j as int);
                    } else {
                        assert(n.scope[k].1 == crate::datatypes::empty_model());
                        assert(scopes_distinct(crate::datatypes::empty_model()));
                    }
                },
                ChildModel::Given(m) => {},
            }
        }
    } else {
        assert(n == crate::datatypes::empty_model());
    }
}

pub open spec fn parse_distinct(st: ParseModel) -> bool {
    stack_in_range(st) && arena_distinct(st.arena)
}

proof fn lemma_step_distinct(st: ParseModel, ls: LineModel, c: char)
    requires
        parse_distinct(st),
    ensures
        parse_distinct(step_char(st, ls, c).0),
{
    if !st.stuck {
        if !st.template {
            if c == '$' && st.last == '\n' && st.stack.len() > 0 {
                let root = st.stack[0];
                lemma_add_child_distinct(st.arena, root, decimal(st.arena[root].children.len()), text_slot(st.buf));
            }
        } else {
            let lsq = if c == '"' && st.last != '\\' {
                LineModel { quoting: !ls.quoting, ..ls }
            } else {
                ls
            };
            let st1 = ParseModel { buf: st.buf.push(c), ..st };
            let ls1 = LineModel { force_string: false, ..lsq };
            let sp = pop_if_deeper(st1, ls1);
            assert forall|i: int| 0 <= i < sp.stack.len() implies 0 <= #[trigger] sp.stack[i] < sp.arena.len() by {
                assert(sp.stack[i] == st.stack[i]);
            }
        }
    }
}

proof fn lemma_run_chars_distinct(st: ParseModel, cs: Seq<char>)
    requires
        parse_distinct(st),
    ensures
        parse_distinct(run_chars(st, cs).0),
    decreases cs.len(),
{
    if cs.len() > 0 {
        lemma_run_chars_distinct(st, cs.drop_last());
        let (a, b) = run_chars(st, cs.drop_last());
        lemma_step_distinct(a, b, cs.last());
    }
}

proof fn lemma_run_lines_distinct(st: ParseModel, ls: Seq<Seq<char>>)
    requires
        parse_distinct(st),
    ensures
        parse_distinct(run_lines(st, ls)),
    decreases ls.len(),
{
    if ls.len() > 0 {
        lemma_run_lines_distinct(st, ls.drop_last());
        let s0 = run_lines(st, ls.drop_last());
        let lv = ls.last().push('\n');
        lemma_run_chars_distinct(s0, lv);
        let (a, b) = run_chars(s0, lv);
        if !a.stuck && !b.commenting && a.template && a.stack.len() > 0 {
            let top = a.stack.last();
            let parent = a.arena[top];
            let key = if parent.value == "SCOPE_GLOBAL"@ {
                decimal(parent.children.len())
            } else {
                b.value
            };
            let args = if b.is_args && a.buf.len() > 0 {
                b.args.push(crate::parser::typed_param(a.buf, b.force_string))
            } else {
                b.args
            };
            let slot = SlotModel {
                value: b.value,
                render: b.render,
                tab_number: b.tab,
                args,
                children: Seq::empty(),
            };
            lemma_add_child_distinct(a.arena, top, key, slot);
            let e = end_line(a, b);
            assert forall|i: int| 0 <= i < e.stack.len() implies 0 <= #[trigger] e.stack[i] < e.arena.len() by {
                if i < a.stack.len() {
                    assert(e.stack[i] == a.stack[i]);
                }
            }
        }
    }
}

/// Parsing keeps each key once in every scope: a tree parsed under a root
/// whose scopes hold each key once holds each key once throughout (the
/// parser adds children by key, replacing a child with the same key).
pub proof fn lemma_parsed_scopes_distinct(src: Seq<char>, root: NodeModel)
    requires
        scopes_distinct(root),
    ensures
        parse_model(src, root) matches Some(t) ==> scopes_distinct(t),
{
    let st0 = initial_state(root);
    let rs = root_slot(root);
    assert forall|x: int, y: int| 0 <= x < y < rs.children.len() implies rs.children[x].0 != rs.children[y].0 by {
        assert(rs.children[x].0 == root.scope[x].0);
        assert(rs.children[y].0 == root.scope[y].0);
    }
    assert forall|k: int| 0 <= k < rs.children.len() implies match #[trigger] rs.children[k].1 {
        ChildModel::Given(m) => scopes_distinct(m),
        ChildModel::Built(_) => true,
    } by {
        assert(rs.children[k].1 == ChildModel::Given(root.scope[k].1));
        assert(scopes_distinct(root.scope[k].1));
    }
    assert(slot_distinct(rs));
    assert(arena_distinct(st0.arena));
    lemma_run_lines_distinct(st0, lines(src));
    let st = run_lines(st0, lines(src));
    if !st.stuck && st.stack.len() > 0 {
        lemma_build_distinct(st.arena, st.stack[0]);
    }
}

/// The reader's nodes are keyed without repeats, and the open ones are slots
/// of the arena.
pub open spec fn json_distinct(st: JsonModel) -> bool {
    &&& st.arena.len() >= 1
    &&& arena_distinct(st.arena)
    &&& forall|i: int| 0 <= i < st.stack.len() ==> 0 <= #[trigger] st.stack[i].0 < st.arena.len()
}

proof fn lemma_insert_into_parent_distinct(st: JsonModel, value: Seq<char>, kind: StructureType, extra: Seq<char>)
    requires
        json_distinct(st),
    ensures
        json_distinct(insert_into_parent(st, value, kind, extra)),
{
    let r = insert_into_parent(st, value, kind, extra);
    if st.stack.len() > 0 {
        let top = st.stack.last().0;
        assert(0 <= top < st.arena.len());
        if kind == StructureType::Single {
            if value == "!#!RENDER"@ {
                assert forall|i: int| 0 <= i < r.arena.len() implies slot_distinct(#[trigger] r.arena[i]) by {
                    assert(r.arena[i].children == st.arena[i].children);
                    assert(slot_distinct(st.arena[i]));
                }
            }
        } else if st.stack.last().1 == StructureType::Object {
            lemma_add_child_distinct(st.arena, top, value, crate::jsondeserializer::plain_slot(value));
            assert forall|i: int| 0 <= i < r.stack.len() implies 0 <= #[trigger] r.stack[i].0 < r.arena.len() by {
                if i < st.stack.len() {
                    assert(r.stack[i] == st.stack[i]);
                }
            }
        } else if st.stack.last().1 == StructureType::Array && !crate::jsondeserializer::untypable(value) {
            assert forall|i: int| 0 <= i < r.arena.len() implies slot_distinct(#[trigger] r.arena[i]) by {
                if i < st.arena.len() {
                    assert(r.arena[i].children == st.arena[i].children);
                    assert(slot_distinct(st.arena[i]));
                }
            }
            assert forall|i: int| 0 <= i < r.stack.len() implies 0 <= #[trigger] r.stack[i].0 < r.arena.len() by {
                if i < st.stack.len() {
                    assert(r.stack[i] == st.stack[i]);
                }
            }
        }
    }
}

proof fn lemma_json_step_distinct(st: JsonModel, c: char)
    requires
        json_distinct(st),
    ensures
        json_distinct(json_step(st, c)),
{
    if !st.stuck {
        let quoting = if c == '"' {
            !st.quoting
        } else {
            st.quoting
        };
        let st0 = JsonModel { quoting, ..st };
        if !quoting {
            if c == '{' || c == '[' {
                let kind = if c == '{' {
                    StructureType::Object
                } else {
                    StructureType::Array
                };
                let attach_here = if kind == StructureType::Object {
                    st0.stack.len() == 1
                } else {
                    st0.stack.len() > 0 && st0.arena[st0.stack.last().0].value == "GLOBAL_JSON_NODE"@
                };
                if kind == StructureType::Array && st0.stack.len() == 0 {
                } else if attach_here {
                    let top = st0.stack.last().0;
                    lemma_add_child_distinct(st0.arena, top, st0.morph_value, crate::jsondeserializer::plain_slot(st0.morph_value));
                    let r = open_member(st0, kind);
                    assert forall|i: int| 0 <= i < r.stack.len() implies 0 <= #[trigger] r.stack[i].0 < r.arena.len() by {
                        if i < st0.stack.len() {
                            assert(r.stack[i] == st0.stack[i]);
                        }
                    }
                } else {
                    lemma_insert_into_parent_distinct(st0, st0.morph_value, kind, st0.morph_extra);
                }
            } else if c == '}' || c == ']' || c == ',' {
                if st0.last != '}' && st0.last != ']' {
                    if st0.primitive {
                        lemma_insert_into_parent_distinct(st0, st0.buf, StructureType::Single, st0.morph_extra);
                    } else {
                        lemma_insert_into_parent_distinct(st0, st0.morph_value, st0.morph_kind, st0.buf);
                    }
                }
            }
        }
    }
}

proof fn lemma_json_run_distinct(st: JsonModel, cs: Seq<char>)
    requires
        json_distinct(st),
    ensures
        json_distinct(json_run(st, cs)),
    decreases cs.len(),
{
    if cs.len() > 0 {
        lemma_json_run_distinct(st, cs.drop_last());
        lemma_json_step_distinct(json_run(st, cs.drop_last()), cs.last());
    }
}

/// Reading stored presets keeps each key once in every scope of the tree
/// it gives back (the reader adds members by name, replacing a member with
/// the same name).
pub proof fn lemma_read_scopes_distinct(raw: Seq<char>)
    ensures
        deserialize_model(raw) matches Some(t) ==> scopes_distinct(t),
{
    let init = json_initial();
    assert(slot_distinct(init.arena[0]));
    assert(json_distinct(init));
    lemma_json_run_distinct(init, raw);
    let st = json_run(init, raw);
    if !st.stuck && assoc_has(st.arena[0].children, Seq::<char>::empty()) {
        let c = st.arena[0].children;
        let f = first_index(c.map_values(|e: (Seq<char>, ChildModel)| e.0), Seq::<char>::empty());
        lemma_first_index(c.map_values(|e: (Seq<char>, ChildModel)| e.0), Seq::<char>::empty());
        assert(slot_distinct(st.arena[0]));
        match c[f].1 {
            ChildModel::Built(j) => {
                lemma_build_distinct(st.arena, j as int);
            },
            ChildModel::Given(m) => {},
        }
    }
}

// ---------------------------------------------------------------------------
// Parsing keeps the root
// ---------------------------------------------------------------------------

pub(crate) proof fn lemma_digit_char(d: nat)
    requires
        d < 10,
    ensures
        digit_char(d) as int - '0' as int == d,
{
}

pub(crate) proof fn lemma_decimal_value(n: nat)
    ensures
        digits_value(decimal(n)) == n,
    decreases n,
{
    if n < 10 {
        lemma_digit_char(n);
        let s = seq![digit_char(n)];
        assert(s.drop_last() =~= Seq::<char>::empty());
        assert(digits_value(Seq::<char>::empty()) == 0);
        assert(digits_value(s) == digits_value(s.drop_last()) * 10 + ((s.last() as int - '0' as int) as nat));
    } else {
        lemma_decimal_value(n / 10);
        lemma_digit_char(n % 10);
        let d = decimal(n / 10);
        let s = d.push(digit_char(n % 10));
        assert(s.drop_last() =~= d);
        assert(digits_value(s) == digits_value(d) * 10 + ((s.last() as int - '0' as int) as nat));
        assert(n == (n / 10) * 10 + n % 10) by (nonlinear_arith);
    }
}

/// Different numbers have different decimal renderings.
proof fn lemma_decimal_injective(a: nat, b: nat)
    requires
        decimal(a) == decimal(b),
    ensures
        a == b,
{
    lemma_decimal_value(a);
    lemma_decimal_value(b);
}

/// The keys of the root's entries are `0`, ..., `m - 1`, in any order.
pub open spec fn index_keyed(root: NodeModel) -> bool {
    &&& forall|j: int|
        #![trigger root.scope[j]]
        0 <= j < root.scope.len() ==> exists|i: nat|
            #![trigger decimal(i)]
            i < root.scope.len() && root.scope[j].0 == decimal(i)
    &&& forall|i: nat|
        #![trigger decimal(i)]
        i < root.scope.len() ==> exists|j: int|
            #![trigger root.scope[j]]
            0 <= j < root.scope.len() && root.scope[j].0 == decimal(i)
}

/// The root's slot still holds the root's fields and its entries, and the
/// children added after them are keyed by their positions.
pub open spec fn keeps_root(s: SlotModel, root: NodeModel) -> bool {
    &&& s.value == root.value
    &&& s.render == root.render
    &&& s.tab_number == root.tab_number
    &&& s.args == root.args
    &&& s.children.len() >= root.scope.len()
    &&& forall|j: int|
        0 <= j < root.scope.len() ==> #[trigger] s.children[j] == (
            root.scope[j].0,
            ChildModel::Given(root.scope[j].1),
        )
    &&& forall|j: int|
        root.scope.len() <= j < s.children.len() ==> #[trigger] s.children[j].0 == decimal(j as nat)
}

proof fn lemma_add_child_root(a: Seq<SlotModel>, p: int, k: Seq<char>, s: SlotModel, root: NodeModel)
    requires
        a.len() >= 1,
        0 <= p < a.len(),
        keeps_root(a[0], root),
        index_keyed(root),
        p == 0 ==> k == decimal(a[0].children.len()),
    ensures
        keeps_root(add_child(a, p, k, s)[0], root),
{
    if p == 0 {
        let c = a[0].children;
        let m = root.scope.len();
        let keys = child_keys(c);
        lemma_first_index(keys, k);
        assert forall|j: int| 0 <= j < keys.len() implies keys[j] != k by {
            assert(keys[j] == c[j].0);
            if j < m {
                assert(c[j] == (root.scope[j].0, ChildModel::Given(root.scope[j].1)));
                let i = choose|i: nat| #![trigger decimal(i)] i < m && root.scope[j].0 == decimal(i);
                if keys[j] == k {
                    lemma_decimal_injective(i, c.len());
                }
            } else {
                assert(c[j].0 == decimal(j as nat));
                if keys[j] == k {
                    lemma_decimal_injective(j as nat, c.len());
                }
            }
        }
        assert(assoc_insert(c, k, ChildModel::Built(a.len())) == c.push((k, ChildModel::Built(a.len()))));
        let c2 = add_child(a, p, k, s)[0].children;
        assert forall|j: int| m <= j < c2.len() implies #[trigger] c2[j].0 == decimal(j as nat) by {
            if j < c.len() {
                assert(c2[j] == c[j]);
            }
        }
        assert forall|j: int| 0 <= j < m implies #[trigger] c2[j] == (
            root.scope[j].0,
            ChildModel::Given(root.scope[j].1),
        ) by {
            assert(c2[j] == c[j]);
        }
    } else {
        assert(add_child(a, p, k, s)[0] == a[0]);
    }
}

proof fn lemma_step_root(st: ParseModel, ls: LineModel, c: char, tab: int, root: NodeModel)
    requires
        root_open(st, tab),
        tab < 0,
        keeps_root(st.arena[0], root),
        index_keyed(root),
    ensures
        keeps_root(step_char(st, ls, c).0.arena[0], root),
{
    if !st.template {
        if c == '$' && st.last == '\n' {
            lemma_add_child_root(st.arena, 0, decimal(st.arena[0].children.len()), text_slot(st.buf), root);
        }
    } else {
        let lsq = if c == '"' && st.last != '\\' {
            LineModel { quoting: !ls.quoting, ..ls }
        } else {
            ls
        };
        let st1 = ParseModel { buf: st.buf.push(c), ..st };
        let ls1 = LineModel { force_string: false, ..lsq };
        assert(pop_if_deeper(st1, ls1).arena == st.arena);
    }
}

proof fn lemma_run_chars_root(st: ParseModel, cs: Seq<char>, tab: int, root: NodeModel)
    requires
        root_open(st, tab),
        tab < 0,
        keeps_root(st.arena[0], root),
        index_keyed(root),
    ensures
        keeps_root(run_chars(st, cs).0.arena[0], root),
    decreases cs.len(),
{
    if cs.len() > 0 {
        lemma_run_chars_root(st, cs.drop_last(), tab, root);
        lemma_run_chars_keeps_root(st, cs.drop_last(), tab);
        let (a, b) = run_chars(st, cs.drop_last());
        lemma_step_root(a, b, cs.last(), tab, root);
    }
}

proof fn lemma_run_lines_root(st: ParseModel, ls: Seq<Seq<char>>, tab: int, root: NodeModel)
    requires
        root_open(st, tab),
        tab < 0,
        keeps_root(st.arena[0], root),
        index_keyed(root),
        root.value == "SCOPE_GLOBAL"@,
    ensures
        keeps_root(run_lines(st, ls).arena[0], root),
    decreases ls.len(),
{
    if ls.len() > 0 {
        lemma_run_lines_root(st, ls.drop_last(), tab, root);
        lemma_run_lines_keeps_root(st, ls.drop_last(), tab);
        let s0 = run_lines(st, ls.drop_last());
        let lv = ls.last().push('\n');
        lemma_run_chars_root(s0, lv, tab, root);
        lemma_run_chars_keeps_root(s0, lv, tab);
        let (a, b) = run_chars(s0, lv);
        if !is_blank(lv) && !a.stuck && !b.commenting && a.template {
            let top = a.stack.last();
            let parent = a.arena[top];
            let key = if parent.value == "SCOPE_GLOBAL"@ {
                decimal(parent.children.len())
            } else {
                b.value
            };
            let args = if b.is_args && a.buf.len() > 0 {
                b.args.push(crate::parser::typed_param(a.buf, b.force_string))
            } else {
                b.args
            };
            let slot = SlotModel {
                value: b.value,
                render: b.render,
                tab_number: b.tab,
                args,
                children: Seq::empty(),
            };
            lemma_add_child_root(a.arena, top, key, slot, root);
        }
    }
}

/// Parsing under a global scope (a `SCOPE_GLOBAL` root with a negative
/// `tab_number` whose entries are keyed `0`, ..., `m - 1` in any order) only
/// adds entries to it: the tree keeps the root's name, render flag, tab
/// number, arguments and old entries, the new entries are keyed by their
/// positions, and the keys are `0`, ..., `n - 1` for the tree's `n` entries.
#[verifier::spinoff_prover]
#[verifier::rlimit(40)]
pub proof fn lemma_parse_keeps_root(src: Seq<char>, root: NodeModel)
    requires
        root.value == "SCOPE_GLOBAL"@,
        root.tab_number < 0,
        index_keyed(root),
    ensures
        parse_model(src, root) matches Some(t) && {
            &&& t.value == root.value
            &&& t.render == root.render
            &&& t.tab_number == root.tab_number
            &&& t.args == root.args
            &&& t.scope.len() >= root.scope.len()
            &&& forall|j: int| 0 <= j < root.scope.len() ==> #[trigger] t.scope[j] == root.scope[j]
            &&& index_keyed(t)
        },
{
    let st0 = initial_state(root);
    let rs = root_slot(root);
    assert(keeps_root(rs, root));
    lemma_negative_root_never_closes(src, root);
    lemma_run_lines_keeps_root(st0, lines(src), root.tab_number);
    lemma_run_lines_root(st0, lines(src), root.tab_number, root);
    let st = run_lines(st0, lines(src));
    let t = build(st.arena, 0);
    let s = st.arena[0];
    let m = root.scope.len();
    let n = t.scope.len();
    assert forall|j: int| 0 <= j < m implies #[trigger] t.scope[j] == root.scope[j] by {
        assert(s.children[j] == (root.scope[j].0, ChildModel::Given(root.scope[j].1)));
    }
    assert forall|j: int| #![trigger t.scope[j]] 0 <= j < n implies exists|i: nat|
        #![trigger decimal(i)]
        i < n && t.scope[j].0 == decimal(i) by {
        if j < m {
            assert(t.scope[j] == root.scope[j]);
            let i = choose|i: nat| #![trigger decimal(i)] i < m && root.scope[j].0 == decimal(i);
            assert(t.scope[j].0 == decimal(i));
        } else {
            assert(s.children[j].0 == decimal(j as nat));
            assert(t.scope[j].0 == decimal(j as nat));
        }
    }
    assert forall|i: nat| #![trigger decimal(i)] i < n implies exists|j: int|
        #![trigger t.scope[j]]
        0 <= j < n && t.scope[j].0 == decimal(i) by {
        if i < m {
            let j = choose|j: int| #![trigger root.scope[j]] 0 <= j < m && root.scope[j].0 == decimal(i);
            assert(t.scope[j] == root.scope[j]);
        } else {
            assert(s.children[i as int].0 == decimal(i));
            assert(t.scope[i as int].0 == decimal(i));
        }
    }
    assert(index_keyed(t));
}

// ---------------------------------------------------------------------------
// Lines that change nothing
// ---------------------------------------------------------------------------

/// The lines that are not white space alone, in order.
pub open spec fn nonblank_lines(ls: Seq<Seq<char>>) -> Seq<Seq<char>>
    decreases ls.len(),
{
    if ls.len() == 0 {
        Seq::empty()
    } else if is_blank(ls.last().push('\n')) {
        nonblank_lines(ls.drop_last())
    } else {
        nonblank_lines(ls.drop_last()).push(ls.last())
    }
}

proof fn lemma_run_nonblank(st: ParseModel, ls: Seq<Seq<char>>)
    ensures
        run_lines(st, ls) == run_lines(st, nonblank_lines(ls)),
    decreases ls.len(),
{
    if ls.len() > 0 {
        lemma_run_nonblank(st, ls.drop_last());
        let nb = nonblank_lines(ls.drop_last());
        if !is_blank(ls.last().push('\n')) {
            assert(nb.push(ls.last()).drop_last() =~= nb);
        }
    }
}

/// Lines of white space alone are skipped: two sources whose other lines
/// agree, in order, parse to the same tree.
pub proof fn lemma_blank_lines_change_nothing(src1: Seq<char>, src2: Seq<char>, root: NodeModel)
    requires
        nonblank_lines(lines(src1)) == nonblank_lines(lines(src2)),
    ensures
        parse_model(src1, root) == parse_model(src2, root),
{
    lemma_run_nonblank(initial_state(root), lines(src1));
    lemma_run_nonblank(initial_state(root), lines(src2));
}

proof fn lemma_run_lines_append(st: ParseModel, a: Seq<Seq<char>>, b: Seq<Seq<char>>)
    ensures
        run_lines(st, a + b) == run_lines(run_lines(st, a), b),
    decreases b.len(),
{
    if b.len() == 0 {
        assert(a + b =~= a);
    } else {
        lemma_run_lines_append(st, a, b.drop_last());
        assert((a + b).drop_last() =~= a + b.drop_last());
    }
}

/// Between lines the last character read is the line feed, unless parsing
/// has stopped.
pub open spec fn at_line_start(st: ParseModel) -> bool {
    st.stuck || st.last == '\n'
}

proof fn lemma_line_feed_last(st: ParseModel, ls: LineModel)
    ensures
        at_line_start(step_char(st, ls, '\n').0),
{
}

proof fn lemma_run_lines_line_start(st: ParseModel, ls: Seq<Seq<char>>)
    requires
        at_line_start(st),
    ensures
        at_line_start(run_lines(st, ls)),
    decreases ls.len(),
{
    if ls.len() > 0 {
        lemma_run_lines_line_start(st, ls.drop_last());
        let s0 = run_lines(st, ls.drop_last());
        let lv = ls.last().push('\n');
        if !is_blank(lv) {
            assert(lv.drop_last() =~= ls.last());
            let (a, b) = run_chars(s0, ls.last());
            lemma_line_feed_last(a, b);
        }
    }
}

/// `t` tabs.
pub open spec fn tabs(t: nat) -> Seq<char> {
    Seq::new(t, |i: int| '\t')
}

/// Once parsing has stopped, characters change nothing.
proof fn lemma_run_stuck(st: ParseModel, cs: Seq<char>)
    requires
        st.stuck,
    ensures
        run_chars(st, cs).0 == st,
    decreases cs.len(),
{
    if cs.len() > 0 {
        lemma_run_stuck(st, cs.drop_last());
    }
}

/// Tabs at the start of a template line only count the depth.
proof fn lemma_run_tabs(st: ParseModel, t: nat)
    requires
        !st.stuck,
        st.template,
        !st.substituting,
    ensures
        ({
            let (a, b) = run_chars(st, tabs(t));
            &&& a == ParseModel { last: a.last, ..st }
            &&& !b.quoting
            &&& !b.commenting
        }),
    decreases t,
{
    if t > 0 {
        lemma_run_tabs(st, (t - 1) as nat);
        assert(tabs(t).drop_last() =~= tabs((t - 1) as nat));
        assert(tabs(t).last() == '\t');
    } else {
        assert(tabs(0) =~= Seq::<char>::empty());
    }
}

/// After a `#`, the characters of the line only move the last character read.
proof fn lemma_run_commented(st: ParseModel, pre: Seq<char>, cs: Seq<char>)
    requires
        !st.stuck,
        st.template,
        !st.substituting,
        run_chars(st, pre).0 == (ParseModel { last: run_chars(st, pre).0.last, ..st }),
        run_chars(st, pre).1.commenting,
    ensures
        ({
            let (a, b) = run_chars(st, pre + cs);
            &&& a == ParseModel { last: a.last, ..st }
            &&& b.commenting
        }),
    decreases cs.len(),
{
    if cs.len() == 0 {
        assert(pre + cs =~= pre);
    } else {
        lemma_run_commented(st, pre, cs.drop_last());
        assert((pre + cs).drop_last() =~= pre + cs.drop_last());
        assert((pre + cs).last() == cs.last());
    }
}

/// A comment line read where a template block is open (and no `{` is left
/// open) leaves the parser's state as it was.
proof fn lemma_comment_line(st: ParseModel, t: nat, c: Seq<char>)
    requires
        at_line_start(st),
        st.template,
        !st.substituting,
    ensures
        run_line(st, tabs(t) + seq!['#'] + c) == st,
{
    let line = tabs(t) + seq!['#'] + c;
    let lv = line.push('\n');
    if !is_blank(lv) {
        if st.stuck {
            lemma_run_stuck(st, lv);
        } else {
            lemma_run_tabs(st, t);
            let pre = tabs(t).push('#');
            assert(pre.drop_last() =~= tabs(t));
            lemma_run_commented(st, pre, c.push('\n'));
            assert(pre + c.push('\n') =~= lv);
            let (a, b) = run_chars(st, lv);
            assert(lv.drop_last() =~= line);
            let (a0, b0) = run_chars(st, line);
            lemma_line_feed_last(a0, b0);
        }
    }
}

/// A comment line inside a template block changes nothing: inserting one
/// between the lines of a source, where a template block is open and no `{`
/// is left open, gives the same tree.
pub proof fn lemma_comment_lines_change_nothing(
    src1: Seq<char>,
    src2: Seq<char>,
    root: NodeModel,
    i: int,
    t: nat,
    c: Seq<char>,
)
    requires
        0 <= i <= lines(src1).len(),
        lines(src2) == lines(src1).take(i).push(tabs(t) + seq!['#'] + c) + lines(src1).skip(i),
        run_lines(initial_state(root), lines(src1).take(i)).template,
        !run_lines(initial_state(root), lines(src1).take(i)).substituting,
    ensures
        parse_model(src1, root) == parse_model(src2, root),
{
    let init = initial_state(root);
    let head = lines(src1).take(i);
    let tail = lines(src1).skip(i);
    let line = tabs(t) + seq!['#'] + c;
    lemma_run_lines_line_start(init, head);
    let sti = run_lines(init, head);
    lemma_comment_line(sti, t, c);
    assert(head.push(line).drop_last() =~= head);
    lemma_run_lines_append(init, head.push(line), tail);
    lemma_run_lines_append(init, head, tail);
    assert(head + tail =~= lines(src1));
}

// ---------------------------------------------------------------------------
// The stored form of a node
// ---------------------------------------------------------------------------

proof fn lemma_entries_same(n1: NodeModel, n2: NodeModel, k: int)
    requires
        n1.scope == n2.scope,
    ensures
        entries_json(n1, k) == entries_json(n2, k),
    decreases k,
{
    if k > 0 {
        lemma_entries_same(n1, n2, k - 1);
    }
}

/// The stored form of a node reads only its tab number and its scope: the
/// node's name, render flag and arguments are not stored (children appear
/// under their keys).
pub proof fn lemma_preset_json_ignores_root(n1: NodeModel, n2: NodeModel, id: Seq<char>)
    requires
        n1.tab_number == n2.tab_number,
        n1.scope == n2.scope,
    ensures
        preset_json(n1, id) == preset_json(n2, id),
{
    lemma_entries_same(n1, n2, n1.scope.len() as int);
}

} // verus!
