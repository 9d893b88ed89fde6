//! The reader of stored presets: a small tokenizer over the JSON-like text that
//! [`crate::parserutilities::node_to_json_preset`] writes, building a tree of
//! nodes. Objects become nodes keyed by their member names; a member whose
//! name is `!#!RENDER` sets the render flag of the object that holds it.
use vstd::prelude::*;
use crate::arena::{
    add_child, arena_model, arena_wf, build, build_node, push_child, ChildModel, Slot, SlotModel,
};
use crate::datatypes::{
    assoc_get, assoc_has, find_key, first_index, lemma_first_index, params_model, Node, NodeModel,
    Parameter,
};
use crate::parser::typed_param;
use crate::parserutilities::parameter_determine;
use crate::text::{chars_of, same_text, string_of};

verus! {

/// The kind of value a node of the reader stands for.
#[derive(Clone, Copy, PartialEq, Eq, Structural, Debug, Default)]
pub enum StructureType {
    #[default]
    Single,
    Array,
    Object,
}

/// A JSON value as a tree.
pub struct JsonNode {
    pub value: String,
    pub single: String,
    pub map: Vec<(String, JsonNode)>,
    pub array: Vec<JsonNode>,
    pub structure: StructureType,
}

// ---------------------------------------------------------------------------
// The state machine
// ---------------------------------------------------------------------------

/// The reader's state between characters. `stack` holds the nodes being
/// filled, innermost last, with the kind of each; `morph_*` is the member
/// being read; `stuck` records that the text cannot be read (reading stops).
pub struct JsonModel {
    pub buf: Seq<char>,
    pub last: char,
    pub quoting: bool,
    pub primitive: bool,
    pub stack: Seq<(int, StructureType)>,
    pub arena: Seq<SlotModel>,
    pub morph_value: Seq<char>,
    pub morph_kind: StructureType,
    pub morph_extra: Seq<char>,
    pub stuck: bool,
}

/// A node that has only a name.
pub open spec fn plain_slot(value: Seq<char>) -> SlotModel {
    SlotModel {
        value,
        render: false,
        tab_number: 0,
        args: Seq::empty(),
        children: Seq::empty(),
    }
}

/// Whether recognising the type of `value` panics (an empty value).
pub open spec fn untypable(value: Seq<char>) -> bool {
    value.len() == 0
}

/// Hands a member to the innermost open node: a `!#!RENDER` scalar sets its
/// render flag; a container becomes its child (in an object) or its argument
/// (in an array) and is opened.
pub open spec fn insert_into_parent(
    st: JsonModel,
    value: Seq<char>,
    kind: StructureType,
    extra: Seq<char>,
) -> JsonModel {
    if st.stack.len() == 0 {
        JsonModel { stuck: true, ..st }
    } else {
        let top = st.stack.last().0;
        let top_kind = st.stack.last().1;
        if kind == StructureType::Single {
            if value == "!#!RENDER"@ {
                JsonModel {
                    arena: st.arena.update(
                        top,
                        SlotModel { render: extra == "true"@, ..st.arena[top] },
                    ),
                    ..st
                }
            } else {
                st
            }
        } else if top_kind == StructureType::Object {
            JsonModel {
                arena: add_child(st.arena, top, value, plain_slot(value)),
                stack: st.stack.push((st.arena.len() as int, kind)),
                ..st
            }
        } else if top_kind == StructureType::Array {
            if untypable(value) {
                JsonModel { stuck: true, ..st }
            } else {
                JsonModel {
                    arena: st.arena.update(
                        top,
                        SlotModel {
                            args: st.arena[top].args.push(typed_param(value, false)),
                            ..st.arena[top]
                        },
                    ).push(plain_slot(value)),
                    stack: st.stack.push((st.arena.len() as int, kind)),
                    ..st
                }
            }
        } else {
            st
        }
    }
}

/// The member being read is reset.
pub open spec fn reset_morph(st: JsonModel) -> JsonModel {
    JsonModel {
        primitive: true,
        morph_value: Seq::empty(),
        morph_kind: StructureType::Single,
        morph_extra: Seq::empty(),
        ..st
    }
}

/// `}`, `]` and `,` finish the member being read (unless a container just
/// closed) and close the innermost node.
pub open spec fn close_member(st: JsonModel) -> JsonModel {
    let st1 = if st.last != '}' && st.last != ']' {
        let st2 = if st.primitive {
            insert_into_parent(st, st.buf, StructureType::Single, st.morph_extra)
        } else {
            insert_into_parent(st, st.morph_value, st.morph_kind, st.buf)
        };
        if st2.stuck {
            st2
        } else {
            JsonModel { stack: st2.stack.drop_last(), ..st2 }
        }
    } else {
        st
    };
    JsonModel { buf: Seq::empty(), ..reset_morph(st1) }
}

/// `{` opens an object, `[` an array.
pub open spec fn open_member(st: JsonModel, kind: StructureType) -> JsonModel {
    let attach_here = if kind == StructureType::Object {
        st.stack.len() == 1
    } else {
        st.stack.len() > 0 && st.arena[st.stack.last().0].value == "GLOBAL_JSON_NODE"@
    };
    let st1 = if kind == StructureType::Array && st.stack.len() == 0 {
        JsonModel { stuck: true, ..st }
    } else if attach_here {
        let top = st.stack.last().0;
        JsonModel {
            arena: add_child(st.arena, top, st.morph_value, plain_slot(st.morph_value)),
            stack: st.stack.push((st.arena.len() as int, kind)),
            ..st
        }
    } else {
        insert_into_parent(st, st.morph_value, kind, st.morph_extra)
    };
    reset_morph(st1)
}

/// One character of the stored text.
pub open spec fn json_step(st: JsonModel, c: char) -> JsonModel {
    if st.stuck {
        st
    } else {
        let quoting = if c == '"' {
            !st.quoting
        } else {
            st.quoting
        };
        let st0 = JsonModel { quoting, ..st };
        let st1 = if !quoting {
            if c == '{' {
                open_member(st0, StructureType::Object)
            } else if c == '}' || c == ']' || c == ',' {
                close_member(st0)
            } else if c == '[' {
                open_member(st0, StructureType::Array)
            } else if c == '"' {
                st0
            } else if c == ':' {
                JsonModel {
                    morph_value: st0.buf,
                    morph_kind: StructureType::Single,
                    primitive: false,
                    buf: Seq::empty(),
                    ..st0
                }
            } else {
                JsonModel { buf: st0.buf.push(c), ..st0 }
            }
        } else if !(c == '"' && st.last != '\\') {
            JsonModel { buf: st0.buf.push(c), ..st0 }
        } else {
            st0
        };
        JsonModel { last: c, ..st1 }
    }
}

pub open spec fn json_run(st: JsonModel, cs: Seq<char>) -> JsonModel
    decreases cs.len(),
{
    if cs.len() == 0 {
        st
    } else {
        json_step(json_run(st, cs.drop_last()), cs.last())
    }
}

pub open spec fn json_initial() -> JsonModel {
    JsonModel {
        buf: Seq::empty(),
        last: 'z',
        quoting: false,
        primitive: true,
        stack: seq![(0int, StructureType::Object)],
        arena: seq![plain_slot("GLOBAL_JSON_NODE"@)],
        morph_value: Seq::empty(),
        morph_kind: StructureType::Single,
        morph_extra: Seq::empty(),
        stuck: false,
    }
}

/// The tree read from `raw`: the object stored under the empty name at the
/// top level. `None` where the text cannot be read: the stack of open nodes
/// ran empty, an array member had an empty name, or there is no such object.
pub open spec fn deserialize_model(raw: Seq<char>) -> Option<NodeModel> {
    let st = json_run(json_initial(), raw);
    if st.stuck || !assoc_has(st.arena[0].children, Seq::<char>::empty()) {
        None
    } else {
        match assoc_get(st.arena[0].children, Seq::<char>::empty()) {
            ChildModel::Built(j) => Some(build(st.arena, j as int)),
            ChildModel::Given(m) => Some(m),
        }
    }
}

// ---------------------------------------------------------------------------
// The executable reader
// ---------------------------------------------------------------------------

struct Reader {
    buf: Vec<char>,
    last: char,
    quoting: bool,
    primitive: bool,
    stack: Vec<(usize, StructureType)>,
    arena: Vec<Slot>,
    morph_value: Vec<char>,
    morph_kind: StructureType,
    morph_extra: Vec<char>,
    stuck: bool,
}

pub open spec fn json_stack_model(s: Seq<(usize, StructureType)>) -> Seq<(int, StructureType)> {
    s.map_values(|e: (usize, StructureType)| (e.0 as int, e.1))
}

fn plain(value: &Vec<char>) -> (r: Slot)
    ensures
        r.model() == plain_slot(value@),
{
    let v = string_of(value, 0, value.len());
    assert(value@.subrange(0, value@.len() as int) =~= value@);
    let args: Vec<Parameter> = Vec::new();
    let r = Slot::leaf(v, false, 0, args);
    assert(params_model(args@) =~= Seq::empty());
    r
}

impl Reader {
    spec fn model(&self) -> JsonModel {
        JsonModel {
            buf: self.buf@,
            last: self.last,
            quoting: self.quoting,
            primitive: self.primitive,
            stack: json_stack_model(self.stack@),
            arena: arena_model(self.arena@),
            morph_value: self.morph_value@,
            morph_kind: self.morph_kind,
            morph_extra: self.morph_extra@,
            stuck: self.stuck,
        }
    }

    spec fn inv(&self) -> bool {
        &&& arena_wf(arena_model(self.arena@))
        &&& self.arena@.len() >= 1
        &&& forall|i: int|
            0 <= i < self.stack@.len() ==> #[trigger] self.stack@[i].0 < self.arena@.len()
    }

    fn push_open(&mut self, index: usize, kind: StructureType)
        requires
            old(self).inv(),
            index < old(self).arena@.len(),
        ensures
            final(self).inv(),
            final(self).model() == (JsonModel {
                stack: old(self).model().stack.push((index as int, kind)),
                ..old(self).model()
            }),
    {
        let ghost s0 = json_stack_model(self.stack@);
        self.stack.push((index, kind));
        assert(json_stack_model(self.stack@) =~= s0.push((index as int, kind)));
    }

    fn insert_into_parent(&mut self, value: &Vec<char>, kind: StructureType, extra: &Vec<char>)
        requires
            old(self).inv(),
            old(self).arena@.len() + 1 < usize::MAX,
        ensures
            final(self).inv(),
            final(self).arena@.len() <= old(self).arena@.len() + 1,
            final(self).model() == insert_into_parent(old(self).model(), value@, kind, extra@),
    {
        let n = self.stack.len();
        if n == 0 {
            self.stuck = true;
            return;
        }
        let (top, top_kind) = self.stack[n - 1];
        let ghost a0 = arena_model(self.arena@);
        proof {
            assert(a0[top as int] == self.arena@[top as int].model());
        }
        if kind == StructureType::Single {
            let v = string_of(value, 0, value.len());
            assert(value@.subrange(0, value@.len() as int) =~= value@);
            if same_text(v.as_str(), "!#!RENDER") {
                let e = string_of(extra, 0, extra.len());
                assert(extra@.subrange(0, extra@.len() as int) =~= extra@);
                let flag = same_text(e.as_str(), "true");
                let mut tmp = Slot::leaf(String::new(), false, 0, Vec::new());
                self.arena.set_and_swap(top, &mut tmp);
                tmp.render = flag;
                self.arena.set_and_swap(top, &mut tmp);
                proof {
                    assert(arena_model(self.arena@) =~= a0.update(
                        top as int,
                        SlotModel { render: extra@ == "true"@, ..a0[top as int] },
                    ));
                    lemma_update_same_children_wf(a0, top as int, SlotModel { render: extra@ == "true"@, ..a0[top as int] });
                }
            }
        } else if top_kind == StructureType::Object {
            let key = string_of(value, 0, value.len());
            assert(value@.subrange(0, value@.len() as int) =~= value@);
            let slot = plain(value);
            let idx = push_child(&mut self.arena, top, key, slot);
            proof {
                lemma_add_plain_wf(a0, top as int, value@);
                assert(arena_model(self.arena@).len() == self.arena@.len());
                assert(self.arena@.len() == a0.len() + 1);
            }
            self.push_open(idx, kind);
        } else if top_kind == StructureType::Array {
            if value.len() == 0 {
                self.stuck = true;
                return;
            }
            let v = string_of(value, 0, value.len());
            assert(value@.subrange(0, value@.len() as int) =~= value@);
            let t = parameter_determine(v.clone(), false);
            let p = Parameter { value: v, var_type: t };
            let mut tmp = Slot::leaf(String::new(), false, 0, Vec::new());
            self.arena.set_and_swap(top, &mut tmp);
            let ghost old_args = tmp.args@;
            tmp.args.push(p);
            proof {
                assert(params_model(tmp.args@) =~= params_model(old_args).push(p@));
            }
            self.arena.set_and_swap(top, &mut tmp);
            let ghost a1 = a0.update(
                top as int,
                SlotModel { args: a0[top as int].args.push(typed_param(value@, false)), ..a0[top as int] },
            );
            proof {
                assert(arena_model(self.arena@) =~= a1);
                lemma_update_same_children_wf(a0, top as int, a1[top as int]);
            }
            let idx = self.arena.len();
            let slot = plain(value);
            self.arena.push(slot);
            proof {
                assert(arena_model(self.arena@) =~= a1.push(plain_slot(value@)));
                lemma_push_plain_wf(a1, value@);
            }
            self.push_open(idx, kind);
        }
    }

    fn reset_morph(&mut self)
        ensures
            final(self).arena@ == old(self).arena@,
            final(self).stack@ == old(self).stack@,
            final(self).model() == reset_morph(old(self).model()),
    {
        self.primitive = true;
        self.morph_value = Vec::new();
        self.morph_kind = StructureType::Single;
        self.morph_extra = Vec::new();
    }

    fn close_member(&mut self)
        requires
            old(self).inv(),
            old(self).arena@.len() + 1 < usize::MAX,
        ensures
            final(self).inv(),
            final(self).arena@.len() <= old(self).arena@.len() + 1,
            final(self).model() == close_member(old(self).model()),
    {
        if self.last != '}' && self.last != ']' {
            if self.primitive {
                let b = self.buf.clone();
                let e = self.morph_extra.clone();
                self.insert_into_parent(&b, StructureType::Single, &e);
            } else {
                let v = self.morph_value.clone();
                let b = self.buf.clone();
                let k = self.morph_kind;
                self.insert_into_parent(&v, k, &b);
            }
            if !self.stuck {
                let ghost s0 = json_stack_model(self.stack@);
                self.stack.pop();
                proof {
                    assert(json_stack_model(self.stack@) =~= s0.drop_last());
                }
            }
        }
        self.reset_morph();
        self.buf = Vec::new();
    }

    fn open_member(&mut self, kind: StructureType)
        requires
            kind != StructureType::Single,
            old(self).inv(),
            old(self).arena@.len() + 1 < usize::MAX,
        ensures
            final(self).inv(),
            final(self).arena@.len() <= old(self).arena@.len() + 1,
            final(self).model() == open_member(old(self).model(), kind),
    {
        let n = self.stack.len();
        if kind == StructureType::Array && n == 0 {
            self.stuck = true;
            self.reset_morph();
            return;
        }
        let attach_here = if kind == StructureType::Object {
            n == 1
        } else {
            let top = self.stack[n - 1].0;
            proof {
                assert(arena_model(self.arena@)[top as int] == self.arena@[top as int].model());
            }
            same_text(self.arena[top].value.as_str(), "GLOBAL_JSON_NODE")
        };
        if attach_here {
            let top = self.stack[n - 1].0;
            let ghost a0 = arena_model(self.arena@);
            let key = string_of(&self.morph_value, 0, self.morph_value.len());
            assert(self.morph_value@.subrange(0, self.morph_value@.len() as int) =~= self.morph_value@);
            let slot = plain(&self.morph_value);
            let idx = push_child(&mut self.arena, top, key, slot);
            proof {
                lemma_add_plain_wf(a0, top as int, self.morph_value@);
                assert(arena_model(self.arena@).len() == self.arena@.len());
                assert(self.arena@.len() == a0.len() + 1);
            }
            self.push_open(idx, kind);
        } else {
            let v = self.morph_value.clone();
            let e = self.morph_extra.clone();
            self.insert_into_parent(&v, kind, &e);
        }
        self.reset_morph();
    }

    fn step(&mut self, c: char)
        requires
            old(self).inv(),
            old(self).arena@.len() + 1 < usize::MAX,
        ensures
            final(self).inv(),
            final(self).arena@.len() <= old(self).arena@.len() + 1,
            final(self).model() == json_step(old(self).model(), c),
    {
        if self.stuck {
            return;
        }
        if c == '"' {
            self.quoting = !self.quoting;
        }
        if !self.quoting {
            if c == '{' {
                self.open_member(StructureType::Object);
            } else if c == '}' || c == ']' || c == ',' {
                self.close_member();
            } else if c == '[' {
                self.open_member(StructureType::Array);
            } else if c == '"' {
            } else if c == ':' {
                self.morph_value = self.buf.clone();
                self.morph_kind = StructureType::Single;
                self.primitive = false;
                self.buf = Vec::new();
            } else {
                self.buf.push(c);
            }
        } else if !(c == '"' && self.last != '\\') {
            self.buf.push(c);
        }
        self.last = c;
    }
}

proof fn lemma_update_same_children_wf(a: Seq<SlotModel>, i: int, s: SlotModel)
    requires
        arena_wf(a),
        0 <= i < a.len(),
        s.children == a[i].children,
    ensures
        arena_wf(a.update(i, s)),
{
    let b = a.update(i, s);
    assert forall|p: int, q: int|
        #![trigger b[p].children[q]]
        0 <= p < b.len() && 0 <= q < b[p].children.len() implies match b[p].children[q].1 {
        ChildModel::Built(j) => p < j < b.len(),
        ChildModel::Given(_) => true,
    } by {
        assert(b[p].children == a[p].children);
    }
}

proof fn lemma_push_plain_wf(a: Seq<SlotModel>, v: Seq<char>)
    requires
        arena_wf(a),
    ensures
        arena_wf(a.push(plain_slot(v))),
{
    let b = a.push(plain_slot(v));
    assert forall|p: int, q: int|
        #![trigger b[p].children[q]]
        0 <= p < b.len() && 0 <= q < b[p].children.len() implies match b[p].children[q].1 {
        ChildModel::Built(j) => p < j < b.len(),
        ChildModel::Given(_) => true,
    } by {
        if p < a.len() {
            assert(b[p] == a[p]);
        }
    }
}

proof fn lemma_add_plain_wf(a: Seq<SlotModel>, p: int, v: Seq<char>)
    requires
        arena_wf(a),
        0 <= p < a.len(),
    ensures
        arena_wf(add_child(a, p, v, plain_slot(v))),
{
    crate::parser::lemma_add_child_wf(a, p, v, plain_slot(v));
}

/// Reads a stored preset text into its tree of nodes, where the text can be
/// read (see [`deserialize_model`]).
pub fn deserialize(raw_json: String) -> (r: Node)
    requires
        raw_json@.len() + 3 < usize::MAX,
        deserialize_model(raw_json@) is Some,
    ensures
        deserialize_model(raw_json@) == Some(r.model()),
{
    match try_deserialize(raw_json) {
        Some(n) => n,
        None => Node {
            value: String::new(),
            render: false,
            tab_number: 0,
            scope: Vec::new(),
            args: Vec::new(),
        },
    }
}

/// Reads a stored preset text into its tree of nodes, or `None` where the
/// text cannot be read: the stack of open nodes runs empty, an array member
/// has an empty name, or no object stands under the empty name.
pub fn try_deserialize(raw_json: String) -> (r: Option<Node>)
    requires
        raw_json@.len() + 3 < usize::MAX,
    ensures
        match r {
            Some(n) => deserialize_model(raw_json@) == Some(n.model()),
            None => deserialize_model(raw_json@) is None,
        },
{
    let cs = chars_of(raw_json.as_str());
    let mut arena: Vec<Slot> = Vec::new();
    let g: Vec<char> = chars_of("GLOBAL_JSON_NODE");
    arena.push(plain(&g));
    let mut stack: Vec<(usize, StructureType)> = Vec::new();
    stack.push((0, StructureType::Object));
    let mut rd = Reader {
        buf: Vec::new(),
        last: 'z',
        quoting: false,
        primitive: true,
        stack,
        arena,
        morph_value: Vec::new(),
        morph_kind: StructureType::Single,
        morph_extra: Vec::new(),
        stuck: false,
    };
    proof {
        assert(json_stack_model(rd.stack@) =~= seq![(0int, StructureType::Object)]);
        assert(arena_model(rd.arena@) =~= seq![plain_slot("GLOBAL_JSON_NODE"@)]);
        assert(rd.model() == json_initial());
        assert(arena_wf(arena_model(rd.arena@)));
    }
    let mut i: usize = 0;
    while i < cs.len()
        invariant
            cs@ == raw_json@,
            raw_json@.len() + 3 < usize::MAX,
            i <= cs@.len(),
            rd.inv(),
            rd.arena@.len() <= 1 + i,
            rd.model() == json_run(json_initial(), cs@.take(i as int)),
        decreases cs@.len() - i,
    {
        proof {
            assert(cs@.take(i + 1).drop_last() =~= cs@.take(i as int));
        }
        rd.step(cs[i]);
        i = i + 1;
    }
    proof {
        assert(cs@.take(cs@.len() as int) =~= raw_json@);
    }
    if rd.stuck {
        return None;
    }
    let ghost a = arena_model(rd.arena@);
    proof {
        assert(a[0] == rd.arena@[0].model());
        assert(a[0].children.map_values(|e: (Seq<char>, ChildModel)| e.0) =~= crate::datatypes::entry_keys(rd.arena@[0].children@));
        lemma_first_index(crate::datatypes::entry_keys(rd.arena@[0].children@), Seq::<char>::empty());
    }
    match find_key(&rd.arena[0].children, "") {
        None => {
            proof {
                reveal_strlit("");
                assert(""@ =~= Seq::<char>::empty());
            }
            None
        },
        Some(k) => {
            proof {
                reveal_strlit("");
                assert(""@ =~= Seq::<char>::empty());
                assert(a[0].children[k as int] == (rd.arena@[0].children@[k as int].0@, rd.arena@[0].children@[k as int].1.model()));
            }
            match &rd.arena[0].children[k].1 {
                crate::arena::Child::Built(j) => {
                    proof {
                        assert(a[0].children[k as int].1 == ChildModel::Built(*j as nat));
                    }
                    Some(build_node(&rd.arena, *j))
                },
                crate::arena::Child::Given(n) => Some(n.duplicate()),
            }
        },
    }
}

} // verus!
