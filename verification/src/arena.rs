//! A tree under construction. The parsers keep the nodes they are still adding
//! children to on a stack; here each node under construction is a slot of a
//! vector, a child is either a later slot or a finished node, and the finished
//! tree is read off from a slot at the end.
use vstd::prelude::*;
use crate::datatypes::{
    assoc_insert, empty_model, entry_insert, entry_keys, first_index, lemma_first_index, Node,
    NodeModel, Parameter, ParameterModel, params_model,
};

verus! {

/// A child of a slot: another slot of the arena, or a node that was given.
pub enum Child {
    Built(usize),
    Given(Node),
}

pub enum ChildModel {
    Built(nat),
    Given(NodeModel),
}

/// A node under construction.
pub struct Slot {
    pub value: String,
    pub render: bool,
    pub tab_number: i32,
    pub args: Vec<Parameter>,
    pub children: Vec<(String, Child)>,
}

pub struct SlotModel {
    pub value: Seq<char>,
    pub render: bool,
    pub tab_number: int,
    pub args: Seq<ParameterModel>,
    pub children: Seq<(Seq<char>, ChildModel)>,
}

impl Child {
    pub open spec fn model(self) -> ChildModel {
        match self {
            Child::Built(j) => ChildModel::Built(j as nat),
            Child::Given(n) => ChildModel::Given(n.model()),
        }
    }
}

pub open spec fn children_model(c: Seq<(String, Child)>) -> Seq<(Seq<char>, ChildModel)> {
    Seq::new(c.len(), |k: int| (c[k].0@, c[k].1.model()))
}

impl Slot {
    pub open spec fn model(self) -> SlotModel {
        SlotModel {
            value: self.value@,
            render: self.render,
            tab_number: self.tab_number as int,
            args: params_model(self.args@),
            children: children_model(self.children@),
        }
    }

    /// A slot with no children.
    pub fn leaf(value: String, render: bool, tab_number: i32, args: Vec<Parameter>) -> (r: Slot)
        ensures
            r.model() == (SlotModel {
                value: value@,
                render,
                tab_number: tab_number as int,
                args: params_model(args@),
                children: Seq::empty(),
            }),
    {
        let r = Slot { value, render, tab_number, args, children: Vec::new() };
        assert(r.model().children =~= Seq::<(Seq<char>, ChildModel)>::empty());
        r
    }
}

pub open spec fn arena_model(a: Seq<Slot>) -> Seq<SlotModel> {
    a.map_values(|s: Slot| s.model())
}

/// Every child slot comes after its parent.
pub open spec fn arena_wf(a: Seq<SlotModel>) -> bool {
    forall|i: int, k: int|
        #![trigger a[i].children[k]]
        0 <= i < a.len() && 0 <= k < a[i].children.len() ==> match a[i].children[k].1 {
            ChildModel::Built(j) => i < j < a.len(),
            ChildModel::Given(_) => true,
        }
}

/// The finished node of slot `i`.
pub open spec fn build(a: Seq<SlotModel>, i: int) -> NodeModel
    decreases a.len() - i,
{
    if 0 <= i < a.len() {
        let s = a[i];
        NodeModel {
            value: s.value,
            render: s.render,
            tab_number: s.tab_number,
            scope: Seq::new(
                s.children.len(),
                |k: int|
                    (
                        s.children[k].0,
                        match s.children[k].1 {
                            ChildModel::Built(j) => if i < j < a.len() {
                                build(a, j as int)
                            } else {
                                empty_model()
                            },
                            ChildModel::Given(m) => m,
                        },
                    ),
            ),
            args: s.args,
        }
    } else {
        empty_model()
    }
}

/// Adding slot `s` as the child `k` of slot `p` (replacing a child with that key).
pub open spec fn add_child(a: Seq<SlotModel>, p: int, k: Seq<char>, s: SlotModel) -> Seq<SlotModel> {
    let n = a.len();
    a.push(s).update(
        p,
        SlotModel { children: assoc_insert(a[p].children, k, ChildModel::Built(n)), ..a[p] },
    )
}

proof fn lemma_children_keys(c: Seq<(String, Child)>)
    ensures
        children_model(c).map_values(|e: (Seq<char>, ChildModel)| e.0) == entry_keys(c),
{
    assert(children_model(c).map_values(|e: (Seq<char>, ChildModel)| e.0) =~= entry_keys(c));
}

/// Adds a new slot at the end and makes it the child `key` of slot `parent`.
pub fn push_child(arena: &mut Vec<Slot>, parent: usize, key: String, slot: Slot) -> (r: usize)
    requires
        parent < old(arena)@.len(),
        old(arena)@.len() < usize::MAX,
    ensures
        r == old(arena)@.len(),
        arena_model(final(arena)@) == add_child(
            arena_model(old(arena)@),
            parent as int,
            key@,
            slot.model(),
        ),
{
    let ghost a0 = arena_model(arena@);
    let n = arena.len();
    arena.push(slot);
    let mut tmp = Slot {
        value: String::new(),
        render: false,
        tab_number: 0,
        args: Vec::new(),
        children: Vec::new(),
    };
    arena.set_and_swap(parent, &mut tmp);
    let ghost before = tmp.children@;
    proof {
        lemma_children_keys(before);
    }
    entry_insert(&mut tmp.children, key, Child::Built(n));
    proof {
        lemma_first_index(entry_keys(before), key@);
        let i = first_index(entry_keys(before), key@);
        if i < 0 {
            assert(children_model(tmp.children@) =~= children_model(before).push(
                (key@, ChildModel::Built(n as nat)),
            ));
        } else {
            assert(children_model(tmp.children@) =~= children_model(before).update(
                i,
                (key@, ChildModel::Built(n as nat)),
            ));
        }
    }
    arena.set_and_swap(parent, &mut tmp);
    assert(arena_model(arena@) =~= add_child(a0, parent as int, key@, slot.model()));
    n
}

/// Builds the finished node of slot `i`.
pub fn build_node(arena: &Vec<Slot>, i: usize) -> (r: Node)
    requires
        i < arena@.len(),
        arena_wf(arena_model(arena@)),
    ensures
        r.model() == build(arena_model(arena@), i as int),
    decreases arena@.len() - i,
{
    let ghost a = arena_model(arena@);
    let slot = &arena[i];
    let mut scope: Vec<(String, Node)> = Vec::new();
    let mut k: usize = 0;
    while k < slot.children.len()
        invariant
            a == arena_model(arena@),
            arena_wf(a),
            i < arena@.len(),
            slot == arena@[i as int],
            k <= slot.children@.len(),
            scope@.len() == k,
            forall|q: int|
                0 <= q < k ==> #[trigger] scope@[q].0@ == build(a, i as int).scope[q].0
                    && scope@[q].1.model() == build(a, i as int).scope[q].1,
        decreases slot.children@.len() - k,
    {
        let key = slot.children[k].0.clone();
        proof {
            assert(a[i as int] == slot.model());
            assert(a[i as int].children[k as int] == (slot.children@[k as int].0@, slot.children@[k as int].1.model()));
        }
        let node = match &slot.children[k].1 {
            Child::Built(j) => {
                proof {
                    assert(a[i as int].children[k as int].1 == ChildModel::Built(*j as nat));
                }
                build_node(arena, *j)
            },
            Child::Given(n) => n.duplicate(),
        };
        scope.push((key, node));
        k = k + 1;
    }
    let r = Node {
        value: slot.value.clone(),
        render: slot.render,
        tab_number: slot.tab_number,
        scope,
        args: crate::datatypes::duplicate_params(&slot.args),
    };
    proof {
        assert(a[i as int] == slot.model());
        assert(r.model().scope =~= build(a, i as int).scope);
    }
    r
}

} // verus!
