//! The `.ear` source parser.
//!
//! A source alternates between text and template blocks; a line that starts
//! with `$` switches from one to the other. Each text run becomes a
//! `TEXT_GLOBAL` node of the root. In a template block each non-blank line is a
//! template: its tabs give its depth, `?` marks it as rendered, the text up to
//! the first `:` is its name, and what follows are its arguments, separated by
//! spaces (quoted arguments are strings, `#` starts a comment, `{...}` is a
//! substitution that the parser skips). A template becomes a child of the
//! closest template above it with a smaller depth.
use vstd::prelude::*;
use crate::arena::{
    add_child, arena_model, arena_wf, build, build_node, push_child, Child, ChildModel, Slot,
    SlotModel,
};
use crate::datatypes::{assoc_insert, params_model, Node, NodeModel, Parameter, ParameterModel};
use crate::parserutilities::{determine_type, parameter_determine};
use crate::text::{
    char_is_whitespace, chars_of, decimal, is_whitespace, line_scan, lines, split_lines, string_of,
    strip_cr, usize_to_string,
};

verus! {

// ---------------------------------------------------------------------------
// The state machine
// ---------------------------------------------------------------------------

/// The parser's state between characters. `stack` holds the slots that new
/// templates may be added to, innermost last; `stuck` records that the stack
/// ran empty while a template needed it (parsing stops there).
pub struct ParseModel {
    pub buf: Seq<char>,
    pub stack: Seq<int>,
    pub substituting: bool,
    pub template: bool,
    pub last: char,
    pub arena: Seq<SlotModel>,
    pub stuck: bool,
}

/// The template being read on the current line.
pub struct LineModel {
    pub value: Seq<char>,
    pub render: bool,
    pub tab: int,
    pub args: Seq<ParameterModel>,
    pub is_args: bool,
    pub commenting: bool,
    pub quoting: bool,
    pub force_string: bool,
}

pub open spec fn new_line() -> LineModel {
    LineModel {
        value: Seq::empty(),
        render: false,
        tab: 0,
        args: Seq::empty(),
        is_args: false,
        commenting: false,
        quoting: false,
        force_string: false,
    }
}

pub open spec fn typed_param(buf: Seq<char>, force_string: bool) -> ParameterModel {
    ParameterModel { value: buf, var_type: determine_type(buf, force_string) }
}

/// Leaves the innermost open template when the current line is not deeper.
pub open spec fn pop_if_deeper(st: ParseModel, ls: LineModel) -> ParseModel {
    if st.stack.len() == 0 {
        ParseModel { stuck: true, ..st }
    } else if ls.tab <= st.arena[st.stack.last()].tab_number {
        ParseModel { stack: st.stack.drop_last(), ..st }
    } else {
        st
    }
}

/// A name character of a template: kept, and the open templates that are not
/// shallower than the current line are closed.
pub open spec fn name_char(st: ParseModel, ls: LineModel, c: char) -> (ParseModel, LineModel) {
    let st1 = ParseModel { buf: st.buf.push(c), ..st };
    let ls1 = LineModel { force_string: false, ..ls };
    (
        if !ls.is_args {
            pop_if_deeper(st1, ls1)
        } else {
            st1
        },
        ls1,
    )
}

/// An unquoted character in a template block. A `?` in front of the name
/// makes the template renderable; a `?` anywhere else is dropped.
pub open spec fn template_char(st: ParseModel, ls: LineModel, c: char) -> (ParseModel, LineModel) {
    if c == ':' {
        if !ls.is_args {
            (
                ParseModel { buf: Seq::empty(), substituting: false, ..st },
                LineModel { value: st.buf, is_args: true, ..ls },
            )
        } else {
            (ParseModel { buf: st.buf.push(':'), substituting: false, ..st }, ls)
        }
    } else if c == '?' {
        if !ls.is_args && st.buf.len() == 0 {
            (st, LineModel { render: true, ..ls })
        } else {
            (st, ls)
        }
    } else if c == '{' {
        (ParseModel { substituting: true, ..st }, ls)
    } else if c == '}' {
        (ParseModel { substituting: false, ..st }, ls)
    } else if c == '\n' {
        (st, ls)
    } else if c == '$' {
        if st.last == '\n' {
            (ParseModel { template: false, buf: Seq::empty(), ..st }, ls)
        } else {
            name_char(st, ls, c)
        }
    } else if c == '#' {
        (st, LineModel { commenting: true, ..ls })
    } else if c == ' ' {
        let ls1 = if ls.is_args && st.buf.len() > 0 {
            LineModel { args: ls.args.push(typed_param(st.buf, ls.force_string)), ..ls }
        } else {
            ls
        };
        (ParseModel { buf: Seq::empty(), ..st }, ls1)
    } else if c == '\t' {
        (st, LineModel { tab: ls.tab + 1, ..ls })
    } else {
        name_char(st, ls, c)
    }
}

/// The node that holds a run of text.
pub open spec fn text_slot(buf: Seq<char>) -> SlotModel {
    SlotModel {
        value: "TEXT_GLOBAL"@,
        render: true,
        tab_number: 0,
        args: seq![ParameterModel { value: buf, var_type: "str"@ }],
        children: Seq::empty(),
    }
}

/// A character outside template blocks. A `$` at the start of a line stores
/// the text read so far as a `TEXT_GLOBAL` child of the root, under the next
/// free index, and starts a template block.
pub open spec fn text_char(st: ParseModel, c: char) -> ParseModel {
    let st1 = if c == '$' && st.last == '\n' {
        if st.stack.len() == 0 {
            ParseModel { stuck: true, ..st }
        } else {
            let root = st.stack[0];
            let key = decimal(st.arena[root].children.len());
            ParseModel {
                arena: add_child(st.arena, root, key, text_slot(st.buf)),
                buf: Seq::empty(),
                template: true,
                ..st
            }
        }
    } else {
        st
    };
    ParseModel { buf: st1.buf.push(c), last: c, ..st1 }
}

/// One character of a line (the line's own line feed included).
pub open spec fn step_char(st: ParseModel, ls: LineModel, c: char) -> (ParseModel, LineModel) {
    if st.stuck {
        (st, ls)
    } else if st.template {
        let (st1, ls1) = if !ls.commenting && !st.substituting {
            let lsq = if c == '"' && st.last != '\\' {
                LineModel { quoting: !ls.quoting, ..ls }
            } else {
                ls
            };
            if !lsq.quoting && c != '"' {
                template_char(st, lsq, c)
            } else if lsq.quoting {
                (
                    if !(st.last != '\\' && c == '"') {
                        ParseModel { buf: st.buf.push(c), ..st }
                    } else {
                        st
                    },
                    LineModel { force_string: true, ..lsq },
                )
            } else {
                (st, lsq)
            }
        } else {
            (st, ls)
        };
        let st2 = if c != '{' && c != '}' {
            ParseModel { last: c, ..st1 }
        } else {
            st1
        };
        let st3 = if c == '}' || c == ':' {
            ParseModel { substituting: false, ..st2 }
        } else {
            st2
        };
        (st3, ls1)
    } else {
        (text_char(st, c), ls)
    }
}

/// The end of a template line: the template becomes a child of the innermost
/// open template (under the next free index where that one is `SCOPE_GLOBAL`,
/// else under its own name) and is itself opened.
pub open spec fn end_line(st: ParseModel, ls: LineModel) -> ParseModel {
    if st.stuck || ls.commenting || !st.template {
        st
    } else if st.stack.len() == 0 {
        ParseModel { stuck: true, ..st }
    } else {
        let args = if ls.is_args && st.buf.len() > 0 {
            ls.args.push(typed_param(st.buf, ls.force_string))
        } else {
            ls.args
        };
        let top = st.stack.last();
        let parent = st.arena[top];
        let key = if parent.value == "SCOPE_GLOBAL"@ {
            decimal(parent.children.len())
        } else {
            ls.value
        };
        let slot = SlotModel {
            value: ls.value,
            render: ls.render,
            tab_number: ls.tab,
            args,
            children: Seq::empty(),
        };
        ParseModel {
            arena: add_child(st.arena, top, key, slot),
            stack: st.stack.push(st.arena.len() as int),
            buf: Seq::empty(),
            ..st
        }
    }
}

/// The characters of a line, from a fresh line state.
pub open spec fn run_chars(st: ParseModel, cs: Seq<char>) -> (ParseModel, LineModel)
    decreases cs.len(),
{
    if cs.len() == 0 {
        (st, new_line())
    } else {
        let (a, b) = run_chars(st, cs.drop_last());
        step_char(a, b, cs.last())
    }
}

pub open spec fn is_blank(cs: Seq<char>) -> bool {
    forall|i: int| 0 <= i < cs.len() ==> char_is_whitespace(#[trigger] cs[i])
}

/// One line of the source; lines of white space alone are skipped.
pub open spec fn run_line(st: ParseModel, line: Seq<char>) -> ParseModel {
    let lv = line.push('\n');
    if is_blank(lv) {
        st
    } else {
        let (a, b) = run_chars(st, lv);
        end_line(a, b)
    }
}

pub open spec fn run_lines(st: ParseModel, ls: Seq<Seq<char>>) -> ParseModel
    decreases ls.len(),
{
    if ls.len() == 0 {
        st
    } else {
        run_line(run_lines(st, ls.drop_last()), ls.last())
    }
}

/// The root as a slot: its own children are finished nodes.
pub open spec fn root_slot(root: NodeModel) -> SlotModel {
    SlotModel {
        value: root.value,
        render: root.render,
        tab_number: root.tab_number,
        args: root.args,
        children: Seq::new(
            root.scope.len(),
            |k: int| (root.scope[k].0, ChildModel::Given(root.scope[k].1)),
        ),
    }
}

pub open spec fn initial_state(root: NodeModel) -> ParseModel {
    ParseModel {
        buf: Seq::empty(),
        stack: seq![0],
        substituting: false,
        template: false,
        last: '\n',
        arena: seq![root_slot(root)],
        stuck: false,
    }
}

/// The tree that parsing `src` under `root` gives, or `None` where parsing
/// stops (the stack of open templates ran empty).
pub open spec fn parse_model(src: Seq<char>, root: NodeModel) -> Option<NodeModel> {
    let st = run_lines(initial_state(root), lines(src));
    if st.stuck || st.stack.len() == 0 {
        None
    } else {
        Some(build(st.arena, st.stack[0]))
    }
}

// ---------------------------------------------------------------------------
// The executable parser
// ---------------------------------------------------------------------------

struct Parser {
    buf: Vec<char>,
    stack: Vec<usize>,
    substituting: bool,
    template: bool,
    last: char,
    arena: Vec<Slot>,
    stuck: bool,
}

struct LineState {
    value: String,
    render: bool,
    tab: i32,
    args: Vec<Parameter>,
    is_args: bool,
    commenting: bool,
    quoting: bool,
    force_string: bool,
}

impl LineState {
    spec fn model(&self) -> LineModel {
        LineModel {
            value: self.value@,
            render: self.render,
            tab: self.tab as int,
            args: params_model(self.args@),
            is_args: self.is_args,
            commenting: self.commenting,
            quoting: self.quoting,
            force_string: self.force_string,
        }
    }

    fn new() -> (r: LineState)
        ensures
            r.model() == new_line(),
    {
        let r = LineState {
            value: String::new(),
            render: false,
            tab: 0,
            args: Vec::new(),
            is_args: false,
            commenting: false,
            quoting: false,
            force_string: false,
        };
        assert(r.model().args =~= Seq::<ParameterModel>::empty());
        r
    }
}

pub open spec fn stack_model(s: Seq<usize>) -> Seq<int> {
    s.map_values(|x: usize| x as int)
}

impl Parser {
    spec fn model(&self) -> ParseModel {
        ParseModel {
            buf: self.buf@,
            stack: stack_model(self.stack@),
            substituting: self.substituting,
            template: self.template,
            last: self.last,
            arena: arena_model(self.arena@),
            stuck: self.stuck,
        }
    }

    spec fn inv(&self) -> bool {
        &&& arena_wf(arena_model(self.arena@))
        &&& self.arena@.len() >= 1
        &&& forall|i: int| 0 <= i < self.stack@.len() ==> #[trigger] self.stack@[i] < self.arena@.len()
    }

    /// The parsed text leaves room for this many more slots.
    spec fn room(&self, n: int) -> bool {
        self.arena@.len() + n < usize::MAX
    }

    fn pop_if_deeper(&mut self, ls: &LineState)
        requires
            old(self).inv(),
        ensures
            final(self).inv(),
            final(self).arena@ == old(self).arena@,
            final(self).model() == pop_if_deeper(old(self).model(), ls.model()),
    {
        let n = self.stack.len();
        if n == 0 {
            self.stuck = true;
        } else {
            let top = self.stack[n - 1];
            proof {
                assert(arena_model(self.arena@)[top as int] == self.arena@[top as int].model());
            }
            if ls.tab <= self.arena[top].tab_number {
                self.stack.pop();
                proof {
                    assert(stack_model(self.stack@) =~= stack_model(old(self).stack@).drop_last());
                }
            }
        }
    }

    fn name_char(&mut self, ls: &mut LineState, c: char)
        requires
            old(self).inv(),
        ensures
            final(self).inv(),
            final(self).arena@ == old(self).arena@,
            final(ls).tab == old(ls).tab,
            (final(self).model(), final(ls).model()) == name_char(
                old(self).model(),
                old(ls).model(),
                c,
            ),
    {
        self.buf.push(c);
        ls.force_string = false;
        if !ls.is_args {
            self.pop_if_deeper(ls);
        }
    }

    /// The typed argument held in the buffer.
    fn buffered_param(&self, force_string: bool) -> (r: Parameter)
        requires
            self.buf@.len() > 0,
        ensures
            r@ == typed_param(self.buf@, force_string),
    {
        let value = string_of(&self.buf, 0, self.buf.len());
        proof {
            assert(self.buf@.subrange(0, self.buf@.len() as int) =~= self.buf@);
        }
        let var_type = parameter_determine(value.clone(), force_string);
        Parameter { value, var_type }
    }

    fn template_char(&mut self, ls: &mut LineState, c: char)
        requires
            old(self).inv(),
            old(ls).tab < i32::MAX,
        ensures
            final(self).inv(),
            final(self).arena@ == old(self).arena@,
            final(ls).tab <= old(ls).tab + 1,
            (final(self).model(), final(ls).model()) == template_char(
                old(self).model(),
                old(ls).model(),
                c,
            ),
    {
        if c == ':' {
            if !ls.is_args {
                ls.value = string_of(&self.buf, 0, self.buf.len());
                proof {
                    assert(self.buf@.subrange(0, self.buf@.len() as int) =~= self.buf@);
                }
                ls.is_args = true;
                self.buf = Vec::new();
            } else {
                self.buf.push(':');
            }
            self.substituting = false;
        } else if c == '?' {
            if !ls.is_args && self.buf.len() == 0 {
                ls.render = true;
            }
        } else if c == '{' {
            self.substituting = true;
        } else if c == '}' {
            self.substituting = false;
        } else if c == '\n' {
        } else if c == '$' {
            if self.last == '\n' {
                self.template = false;
                self.buf = Vec::new();
            } else {
                self.name_char(ls, c);
            }
        } else if c == '#' {
            ls.commenting = true;
        } else if c == ' ' {
            if ls.is_args && self.buf.len() > 0 {
                let p = self.buffered_param(ls.force_string);
                let ghost old_args = ls.args@;
                ls.args.push(p);
                proof {
                    assert(params_model(ls.args@) =~= params_model(old_args).push(p@));
                }
            }
            self.buf = Vec::new();
        } else if c == '\t' {
            ls.tab = ls.tab + 1;
        } else {
            self.name_char(ls, c);
        }
        proof {
            assert(self.model().buf == self.buf@);
        }
    }

    fn text_char(&mut self, c: char)
        requires
            old(self).inv(),
            old(self).room(1),
        ensures
            final(self).inv(),
            final(self).arena@.len() <= old(self).arena@.len() + 1,
            final(self).model() == text_char(old(self).model(), c),
    {
        if c == '$' && self.last == '\n' {
            if self.stack.len() == 0 {
                self.stuck = true;
            } else {
                let root = self.stack[0];
                proof {
                    assert(arena_model(self.arena@)[root as int] == self.arena@[root as int].model());
                }
                let key = usize_to_string(self.arena[root].children.len());
                let text = string_of(&self.buf, 0, self.buf.len());
                proof {
                    assert(self.buf@.subrange(0, self.buf@.len() as int) =~= self.buf@);
                }
                let mut args: Vec<Parameter> = Vec::new();
                args.push(Parameter { value: text, var_type: "str".to_owned() });
                let slot = Slot::leaf("TEXT_GLOBAL".to_owned(), true, 0, args);
                proof {
                    assert(params_model(args@) =~= seq![
                        ParameterModel { value: old(self).buf@, var_type: "str"@ },
                    ]);
                    assert(slot.model() == text_slot(old(self).buf@));
                }
                let ghost a0 = arena_model(self.arena@);
                push_child(&mut self.arena, root, key, slot);
                proof {
                    lemma_add_child_wf(a0, root as int, decimal(a0[root as int].children.len()), text_slot(old(self).buf@));
                }
                self.buf = Vec::new();
                self.template = true;
            }
        }
        self.buf.push(c);
        self.last = c;
    }

    fn step(&mut self, ls: &mut LineState, c: char)
        requires
            old(self).inv(),
            old(self).room(1),
            old(ls).tab < i32::MAX,
        ensures
            final(self).inv(),
            final(self).arena@.len() <= old(self).arena@.len() + 1,
            final(ls).tab <= old(ls).tab + 1,
            (final(self).model(), final(ls).model()) == step_char(
                old(self).model(),
                old(ls).model(),
                c,
            ),
    {
        if self.stuck {
            return;
        }
        if self.template {
            if !ls.commenting && !self.substituting {
                if c == '"' && self.last != '\\' {
                    ls.quoting = !ls.quoting;
                }
                if !ls.quoting && c != '"' {
                    self.template_char(ls, c);
                } else if ls.quoting {
                    ls.force_string = true;
                    if !(self.last != '\\' && c == '"') {
                        self.buf.push(c);
                    }
                }
            }
            if c != '{' && c != '}' {
                self.last = c;
            }
            if c == '}' || c == ':' {
                self.substituting = false;
            }
        } else {
            self.text_char(c);
        }
    }

    fn end_line(&mut self, ls: LineState)
        requires
            old(self).inv(),
            old(self).room(1),
        ensures
            final(self).inv(),
            final(self).arena@.len() <= old(self).arena@.len() + 1,
            final(self).model() == end_line(old(self).model(), ls.model()),
    {
        if self.stuck || ls.commenting || !self.template {
            return;
        }
        let n = self.stack.len();
        if n == 0 {
            self.stuck = true;
            return;
        }
        let ghost lm = ls.model();
        let LineState { value, render, tab, mut args, is_args, force_string, .. } = ls;
        if is_args && self.buf.len() > 0 {
            let p = self.buffered_param(force_string);
            let ghost old_args = args@;
            args.push(p);
            proof {
                assert(params_model(args@) =~= params_model(old_args).push(p@));
            }
        }
        let top = self.stack[n - 1];
        proof {
            assert(arena_model(self.arena@)[top as int] == self.arena@[top as int].model());
        }
        let key = if crate::text::same_text(self.arena[top].value.as_str(), "SCOPE_GLOBAL") {
            usize_to_string(self.arena[top].children.len())
        } else {
            value.clone()
        };
        let slot = Slot::leaf(value, render, tab, args);
        let ghost a0 = arena_model(self.arena@);
        let ghost s0 = stack_model(self.stack@);
        let new_index = push_child(&mut self.arena, top, key, slot);
        proof {
            lemma_add_child_wf(a0, top as int, key@, slot.model());
        }
        self.stack.push(new_index);
        self.buf = Vec::new();
        proof {
            assert(stack_model(self.stack@) =~= s0.push(a0.len() as int));
        }
    }
}

pub proof fn lemma_add_child_wf(a: Seq<SlotModel>, p: int, k: Seq<char>, s: SlotModel)
    requires
        arena_wf(a),
        0 <= p < a.len(),
        s.children.len() == 0,
    ensures
        arena_wf(add_child(a, p, k, s)),
        add_child(a, p, k, s).len() == a.len() + 1,
{
    let b = add_child(a, p, k, s);
    let n = a.len();
    let m = a[p].children.map_values(|e: (Seq<char>, ChildModel)| e.0);
    crate::datatypes::lemma_first_index(m, k);
    assert forall|i: int, q: int|
        #![trigger b[i].children[q]]
        0 <= i < b.len() && 0 <= q < b[i].children.len() implies match b[i].children[q].1 {
        ChildModel::Built(j) => i < j < b.len(),
        ChildModel::Given(_) => true,
    } by {
        if i == p {
            let c = assoc_insert(a[p].children, k, ChildModel::Built(n as nat));
            assert(b[i].children == c);
            if q < a[p].children.len() && c[q] == a[p].children[q] {
                assert(a[p].children[q] == a[p].children[q]);
            }
        } else if i < n {
            assert(b[i] == a[i]);
        }
    }
}

proof fn lemma_line_scan_bound(s: Seq<char>)
    ensures
        lines_weight(line_scan(s).0) + line_scan(s).1.len() <= s.len(),
        forall|i: int|
            0 <= i < line_scan(s).0.len() ==> #[trigger] line_scan(s).0[i].len() <= s.len(),
    decreases s.len(),
{
    if s.len() > 0 {
        lemma_line_scan_bound(s.drop_last());
        let (done, cur) = line_scan(s.drop_last());
        lemma_weight_nonneg(done);
        if s.last() == '\n' {
            lemma_weight_push(done, strip_cr(cur));
            let d2 = done.push(strip_cr(cur));
            assert forall|i: int| 0 <= i < d2.len() implies #[trigger] d2[i].len() <= s.len() by {
                if i < done.len() {
                    assert(d2[i] == done[i]);
                }
            }
        }
    }
}

proof fn lemma_weight_nonneg(ls: Seq<Seq<char>>)
    ensures
        lines_weight(ls) >= 0,
    decreases ls.len(),
{
    if ls.len() > 0 {
        lemma_weight_nonneg(ls.drop_last());
    }
}

/// The characters that a list of lines stands for, with one line feed each.
pub open spec fn lines_weight(ls: Seq<Seq<char>>) -> int
    decreases ls.len(),
{
    if ls.len() == 0 {
        0
    } else {
        lines_weight(ls.drop_last()) + ls.last().len() + 1
    }
}

proof fn lemma_weight_push(ls: Seq<Seq<char>>, l: Seq<char>)
    ensures
        lines_weight(ls.push(l)) == lines_weight(ls) + l.len() + 1,
{
    assert(ls.push(l).drop_last() =~= ls);
}

proof fn lemma_lines_bound(s: Seq<char>)
    ensures
        lines_weight(lines(s)) <= s.len() + 1,
        forall|i: int| 0 <= i < lines(s).len() ==> #[trigger] lines(s)[i].len() <= s.len(),
{
    lemma_line_scan_bound(s);
    let (done, cur) = line_scan(s);
    lemma_weight_nonneg(done);
    if cur.len() > 0 {
        lemma_weight_push(done, cur);
        let d2 = done.push(cur);
        assert forall|i: int| 0 <= i < d2.len() implies #[trigger] d2[i].len() <= s.len() by {
            if i < done.len() {
                assert(d2[i] == done[i]);
            }
        }
    }
}

proof fn lemma_weight_prefix(ls: Seq<Seq<char>>, i: int)
    requires
        0 <= i < ls.len(),
    ensures
        lines_weight(ls.take(i + 1)) == lines_weight(ls.take(i)) + ls[i].len() + 1,
        lines_weight(ls.take(i + 1)) <= lines_weight(ls),
    decreases ls.len() - i,
{
    assert(ls.take(i + 1).drop_last() =~= ls.take(i));
    if i + 1 < ls.len() {
        lemma_weight_prefix(ls, i + 1);
    } else {
        assert(ls.take(i + 1) =~= ls);
    }
}

/// Whether every character of `line` is white space (the line feed that ends
/// it always is).
fn line_is_blank(line: &Vec<char>) -> (r: bool)
    ensures
        r == is_blank(line@.push('\n')),
{
    let _ = is_whitespace('\n');
    let mut i: usize = 0;
    while i < line.len()
        invariant
            i <= line@.len(),
            forall|j: int| 0 <= j < i ==> char_is_whitespace(#[trigger] line@[j]),
        decreases line@.len() - i,
    {
        if !is_whitespace(line[i]) {
            assert(!char_is_whitespace(line@.push('\n')[i as int]));
            return false;
        }
        i = i + 1;
    }
    assert forall|j: int| 0 <= j < line@.push('\n').len() implies char_is_whitespace(
        #[trigger] line@.push('\n')[j],
    ) by {
        if j < line@.len() {
            assert(line@.push('\n')[j] == line@[j]);
        }
    }
    true
}

/// Parses the source `src` into the tree of its text runs and templates,
/// under the root `node_global`. `None` where parsing stops: the stack of
/// open templates ran empty, which cannot happen when the root's
/// `tab_number` is negative (see [`crate::laws::lemma_negative_root_never_closes`]).
pub fn parse_source(src: String, node_global: Node) -> (r: Option<Node>)
    requires
        src@.len() < i32::MAX,
        3 * src@.len() + 4 < usize::MAX,
    ensures
        match r {
            Some(n) => parse_model(src@, node_global.model()) == Some(n.model()),
            None => parse_model(src@, node_global.model()) is None,
        },
{
    let ghost root = node_global.model();
    let chars = chars_of(src.as_str());
    let all_lines = split_lines(&chars);
    proof {
        lemma_lines_bound(src@);
    }
    let mut p = root_parser(node_global);
    let mut li: usize = 0;
    while li < all_lines.len()
        invariant
            chars@ == src@,
            all_lines@.len() == lines(src@).len(),
            forall|i: int| 0 <= i < all_lines@.len() ==> #[trigger] all_lines@[i]@ == lines(src@)[i],
            lines_weight(lines(src@)) <= src@.len() + 1,
            forall|i: int| 0 <= i < lines(src@).len() ==> #[trigger] lines(src@)[i].len() <= src@.len(),
            src@.len() < i32::MAX,
            3 * src@.len() + 4 < usize::MAX,
            li <= all_lines@.len(),
            p.inv(),
            p.arena@.len() <= 1 + 2 * lines_weight(lines(src@).take(li as int)),
            p.model() == run_lines(initial_state(root), lines(src@).take(li as int)),
        decreases all_lines@.len() - li,
    {
        let line = &all_lines[li];
        proof {
            lemma_weight_prefix(lines(src@), li as int);
            assert(lines(src@).take(li + 1).drop_last() =~= lines(src@).take(li as int));
            assert(lines(src@).take(li + 1).last() == line@);
        }
        let ghost before = p.model();
        let ghost base_len = p.arena@.len();
        if !line_is_blank(line) {
            let mut ls = LineState::new();
            let mut i: usize = 0;
            while i < line.len()
                invariant
                    p.inv(),
                    line@.len() <= src@.len() < i32::MAX,
                    3 * src@.len() + 4 < usize::MAX,
                    base_len + line@.len() + 2 < usize::MAX,
                    i <= line@.len(),
                    ls.tab <= i,
                    p.arena@.len() <= base_len + i,
                    (p.model(), ls.model()) == run_chars(before, line@.take(i as int)),
                decreases line@.len() - i,
            {
                proof {
                    assert(line@.take(i + 1).drop_last() =~= line@.take(i as int));
                }
                p.step(&mut ls, line[i]);
                i = i + 1;
            }
            proof {
                assert(line@.take(line@.len() as int) =~= line@);
                assert(line@.push('\n').drop_last() =~= line@);
            }
            p.step(&mut ls, '\n');
            p.end_line(ls);
        }
        li = li + 1;
    }
    proof {
        assert(lines(src@).take(all_lines@.len() as int) =~= lines(src@));
    }
    if p.stuck || p.stack.len() == 0 {
        return None;
    }
    let r = build_node(&p.arena, p.stack[0]);
    proof {
        assert(stack_model(p.stack@)[0] == p.stack@[0] as int);
    }
    Some(r)
}

fn root_parser(root: Node) -> (p: Parser)
    ensures
        p.inv(),
        p.arena@.len() == 1,
        p.model() == initial_state(root.model()),
{
    let ghost rm = root.model();
    proof {
        crate::datatypes::lemma_scope_model(root);
    }
    let Node { value, render, tab_number, scope, args } = root;
    let mut children: Vec<(String, Child)> = Vec::new();
    let mut scope = scope;
    let ghost orig = scope@;
    let mut taken: Vec<(String, Node)> = Vec::new();
    // The children keep their order: take them from the back, then reverse.
    while scope.len() > 0
        invariant
            scope@.len() + taken@.len() == orig.len(),
            forall|q: int| 0 <= q < scope@.len() ==> #[trigger] scope@[q] == orig[q],
            forall|q: int|
                0 <= q < taken@.len() ==> #[trigger] taken@[q] == orig[orig.len() - 1 - q],
        decreases scope@.len(),
    {
        let e = scope.pop().unwrap();
        taken.push(e);
    }
    while taken.len() > 0
        invariant
            children@.len() + taken@.len() == orig.len(),
            forall|q: int|
                0 <= q < taken@.len() ==> #[trigger] taken@[q] == orig[orig.len() - 1 - q],
            forall|q: int|
                0 <= q < children@.len() ==> #[trigger] children@[q].0@ == orig[q].0@
                    && children@[q].1.model() == ChildModel::Given(orig[q].1.model()),
        decreases taken@.len(),
    {
        let (k, n) = taken.pop().unwrap();
        children.push((k, Child::Given(n)));
    }
    let slot = Slot { value, render, tab_number, args, children };
    let mut arena: Vec<Slot> = Vec::new();
    arena.push(slot);
    let mut stack: Vec<usize> = Vec::new();
    stack.push(0);
    let p = Parser {
        buf: Vec::new(),
        stack,
        substituting: false,
        template: false,
        last: '\n',
        arena,
        stuck: false,
    };
    proof {
        assert(slot.model().children =~= root_slot(rm).children);
        assert(slot.model() == root_slot(rm));
        assert(arena_model(p.arena@) =~= seq![root_slot(rm)]);
        assert(stack_model(p.stack@) =~= seq![0int]);
        assert(p.model().buf =~= Seq::<char>::empty());
    }
    p
}

} // verus!
