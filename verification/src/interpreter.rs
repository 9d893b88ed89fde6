//! The interpreter's walk over a parsed tree. Interpreting a node interprets
//! its children, rebuilds its scope keyed by the children's template names,
//! and decides which nodes are called, in which order and whether inside a
//! preset declaration. What a call does (printing, reading other files,
//! storing presets) is left to the program that runs the calls.
use vstd::prelude::*;
use crate::datatypes::{
    assoc_insert, duplicate_params, entry_insert, entry_keys, find_key, first_index,
    lemma_entry_insert_model, lemma_first_index, lemma_scope_model, model_keys, scope_model, Node,
    NodeModel,
};
use crate::text::{decimal, same_text, usize_to_string};

verus! {

/// A node to call, and whether the call happens inside a preset declaration.
pub struct CallModel {
    pub node: NodeModel,
    pub is_preset: bool,
}

/// A call that the interpreter asks for: the node (as it was when the call
/// was decided), the preset flag, and the file the node comes from.
pub struct PendingCall {
    pub node: Node,
    pub is_preset: bool,
    pub file_path: String,
}

pub open spec fn calls_model(v: Seq<PendingCall>) -> Seq<CallModel> {
    v.map_values(|c: PendingCall| CallModel { node: c.node.model(), is_preset: c.is_preset })
}

/// A visited child goes into the new scope under its template name; a leaf
/// is called as it is, an inner node is interpreted first and is called
/// afterwards where the parent renders.
pub open spec fn visited(
    parent_render: bool,
    c: NodeModel,
    p: bool,
    ns: Seq<(Seq<char>, NodeModel)>,
    cs: Seq<CallModel>,
    sub: (NodeModel, Seq<CallModel>),
) -> (Seq<(Seq<char>, NodeModel)>, Seq<CallModel>) {
    if c.scope.len() == 0 {
        (assoc_insert(ns, c.value, c), cs.push(CallModel { node: c, is_preset: p }))
    } else {
        (
            assoc_insert(ns, c.value, sub.0),
            if parent_render {
                cs + sub.1 + seq![CallModel { node: sub.0, is_preset: p }]
            } else {
                cs + sub.1
            },
        )
    }
}

/// Interprets `n` with the preset flag `p`: the new node and the calls, in order.
pub open spec fn interp(n: NodeModel, p: bool) -> (NodeModel, Seq<CallModel>)
    decreases n, n.scope.len() + 1,
{
    let (pf, ns, cs) = if n.value == "SCOPE_GLOBAL"@ {
        interp_global(n, p, n.scope.len() as int)
    } else {
        interp_scope(n, p, n.scope.len() as int)
    };
    let n2 = NodeModel { scope: ns, ..n };
    (
        n2,
        if n.render && !pf && n.value != Seq::<char>::empty() {
            cs.push(CallModel { node: n2, is_preset: false })
        } else {
            cs
        },
    )
}

/// The first `k` children of a template, in scope order: children without a
/// name are skipped, and the flag is on for a `NEW_PRESETS` child and off
/// after it.
pub open spec fn interp_scope(parent: NodeModel, p: bool, k: int) -> (
    bool,
    Seq<(Seq<char>, NodeModel)>,
    Seq<CallModel>,
)
    decreases parent, k,
{
    if k <= 0 || k > parent.scope.len() {
        (p, Seq::empty(), Seq::empty())
    } else {
        let (p0, ns, cs) = interp_scope(parent, p, k - 1);
        let c = parent.scope[k - 1].1;
        if c.value == Seq::<char>::empty() {
            (p0, ns, cs)
        } else {
            let p1 = if c.value == "NEW_PRESETS"@ {
                true
            } else {
                p0
            };
            let (ns2, cs2) = visited(parent.render, c, p1, ns, cs, interp(c, p1));
            (
                if c.value == "NEW_PRESETS"@ {
                    false
                } else {
                    p1
                },
                ns2,
                cs2,
            )
        }
    }
}

/// The children `0`, ..., `k - 1` of the global scope, by index.
pub open spec fn interp_global(parent: NodeModel, p: bool, k: int) -> (
    bool,
    Seq<(Seq<char>, NodeModel)>,
    Seq<CallModel>,
)
    decreases parent, k,
{
    if k <= 0 || k > parent.scope.len() {
        (p, Seq::empty(), Seq::empty())
    } else {
        let (_, ns, cs) = interp_global(parent, p, k - 1);
        let idx = first_index(model_keys(parent.scope), decimal((k - 1) as nat));
        if 0 <= idx < parent.scope.len() {
            let c = parent.scope[idx].1;
            let (ns2, cs2) = visited(parent.render, c, p, ns, cs, interp(c, p));
            (p, ns2, cs2)
        } else {
            (p, ns, cs)
        }
    }
}

/// A `SCOPE_GLOBAL` node holds its children under the indices `0`, `1`, ...
pub open spec fn indexed(n: NodeModel) -> bool {
    forall|i: nat| i < n.scope.len() ==> first_index(model_keys(n.scope), #[trigger] decimal(i)) >= 0
}

/// Whether interpreting `n` goes through without the index lookups of a
/// `SCOPE_GLOBAL` node failing.
pub open spec fn interpretable(n: NodeModel) -> bool
    decreases n, n.scope.len() + 1,
{
    &&& (n.value == "SCOPE_GLOBAL"@ ==> indexed(n))
    &&& children_interpretable(n, n.scope.len() as int)
}

pub open spec fn children_interpretable(n: NodeModel, k: int) -> bool
    decreases n, k,
{
    if k <= 0 || k > n.scope.len() {
        true
    } else {
        &&& children_interpretable(n, k - 1)
        &&& {
            let c = n.scope[k - 1].1;
            ||| c.scope.len() == 0
            ||| (n.value != "SCOPE_GLOBAL"@ && c.value == Seq::<char>::empty())
            ||| interpretable(c)
        }
    }
}

pub proof fn lemma_children_interpretable(n: NodeModel, k: int, j: int)
    requires
        children_interpretable(n, k),
        0 <= j < k <= n.scope.len(),
    ensures
        ({
            let c = n.scope[j].1;
            ||| c.scope.len() == 0
            ||| (n.value != "SCOPE_GLOBAL"@ && c.value == Seq::<char>::empty())
            ||| interpretable(c)
        }),
    decreases k,
{
    if j < k - 1 {
        lemma_children_interpretable(n, k - 1, j);
    }
}

impl Node {
    /// Whether [`Node::interpret`] may be called on this node.
    pub fn can_interpret(&self) -> (r: bool)
        ensures
            r == interpretable(self.model()),
        decreases self,
    {
        let ghost m = self.model();
        proof {
            lemma_scope_model(*self);
        }
        let global = same_text(self.value.as_str(), "SCOPE_GLOBAL");
        let n = self.scope.len();
        if global {
            let mut i: usize = 0;
            while i < n
                invariant
                    m == self.model(),
                    m.value == "SCOPE_GLOBAL"@,
                    model_keys(m.scope) == entry_keys(self.scope@),
                    n == self.scope@.len(),
                    i <= n,
                    forall|j: nat| j < i ==> first_index(model_keys(m.scope), #[trigger] decimal(j)) >= 0,
                decreases n - i,
            {
                let key = usize_to_string(i);
                if find_key(&self.scope, key.as_str()).is_none() {
                    proof {
                        assert(first_index(model_keys(m.scope), decimal(i as nat)) < 0);
                        assert(!indexed(m));
                    }
                    return false;
                }
                i = i + 1;
            }
        }
        let mut k: usize = 0;
        while k < n
            invariant
                m == self.model(),
                n == self.scope@.len(),
                global == (m.value == "SCOPE_GLOBAL"@),
                global ==> indexed(m),
                k <= n,
                children_interpretable(m, k as int),
            decreases n - k,
        {
            let c = &self.scope[k].1;
            proof {
                assert(m.scope[k as int].1 == c.model());
            }
            let ok = c.scope.len() == 0 || (!global && same_text(c.value.as_str(), "")) || c.can_interpret();
            proof {
                reveal_strlit("");
                assert(""@ =~= Seq::<char>::empty());
            }
            if !ok {
                proof {
                    lemma_children_prefix_fails(m, k as int + 1);
                }
                return false;
            }
            k = k + 1;
        }
        true
    }

    /// Interprets the node: each child is interpreted (or, a leaf, taken as it
    /// is), the scope is rebuilt under the children's template names, and the
    /// calls to make are returned in the order in which they are made.
    pub fn interpret(&mut self, is_preset: bool, file_path: String) -> (r: (Node, Vec<PendingCall>))
        requires
            interpretable(old(self).model()),
        ensures
            final(self).model() == interp(old(self).model(), is_preset).0,
            r.0.model() == interp(old(self).model(), is_preset).0,
            calls_model(r.1@) == interp(old(self).model(), is_preset).1,
            forall|i: int| 0 <= i < r.1@.len() ==> (#[trigger] r.1@[i]).file_path@ == file_path@,
    {
        let (n, calls) = self.interpreted(is_preset, &file_path);
        *self = n.duplicate();
        (n, calls)
    }

    fn visit(
        parent_render: bool,
        c: &Node,
        p: bool,
        file_path: &String,
        ns: &mut Vec<(String, Node)>,
        calls: &mut Vec<PendingCall>,
    )
        requires
            c.scope@.len() == 0 || interpretable(c.model()),
            forall|i: int| 0 <= i < old(calls)@.len() ==> (#[trigger] old(calls)@[i]).file_path@ == file_path@,
        ensures
            (scope_model(final(ns)@), calls_model(final(calls)@)) == visited(
                parent_render,
                c.model(),
                p,
                scope_model(old(ns)@),
                calls_model(old(calls)@),
                interp(c.model(), p),
            ),
            forall|i: int| 0 <= i < final(calls)@.len() ==> (#[trigger] final(calls)@[i]).file_path@ == file_path@,
        decreases c, 2nat,
    {
        let ghost ns0 = ns@;
        let ghost cs0 = calls@;
        proof {
            lemma_scope_model(*c);
        }
        if c.scope.len() == 0 {
            let key = c.value.clone();
            let d = c.duplicate();
            let ghost kg = key;
            let ghost dg = d;
            entry_insert(ns, key, d);
            proof {
                lemma_entry_insert_model(ns0, kg, dg);
            }
            calls.push(PendingCall { node: c.duplicate(), is_preset: p, file_path: file_path.clone() });
            proof {
                assert(calls_model(calls@) =~= calls_model(cs0).push(CallModel { node: c.model(), is_preset: p }));
            }
        } else {
            let (t, mut tc) = c.interpreted(p, file_path);
            let key = c.value.clone();
            let td = t.duplicate();
            let ghost kg = key;
            let ghost tdg = td;
            entry_insert(ns, key, td);
            proof {
                lemma_entry_insert_model(ns0, kg, tdg);
            }
            let ghost tcs = tc@;
            calls.append(&mut tc);
            proof {
                assert(calls_model(calls@) =~= calls_model(cs0) + calls_model(tcs));
            }
            if parent_render {
                let ghost cs1 = calls@;
                calls.push(PendingCall { node: t, is_preset: p, file_path: file_path.clone() });
                proof {
                    assert(calls_model(calls@) =~= calls_model(cs1).push(CallModel { node: tdg.model(), is_preset: p }));
                }
            }
        }
    }

    fn interpreted(&self, is_preset: bool, file_path: &String) -> (r: (Node, Vec<PendingCall>))
        requires
            interpretable(self.model()),
        ensures
            r.0.model() == interp(self.model(), is_preset).0,
            calls_model(r.1@) == interp(self.model(), is_preset).1,
            forall|i: int| 0 <= i < r.1@.len() ==> (#[trigger] r.1@[i]).file_path@ == file_path@,
        decreases self, 1nat,
    {
        let ghost m = self.model();
        proof {
            lemma_scope_model(*self);
        }
        let global = same_text(self.value.as_str(), "SCOPE_GLOBAL");
        let n = self.scope.len();
        let mut ns: Vec<(String, Node)> = Vec::new();
        let mut calls: Vec<PendingCall> = Vec::new();
        let mut pv = is_preset;
        if global {
            let mut i: usize = 0;
            while i < n
                invariant
                    m == self.model(),
                    m.value == "SCOPE_GLOBAL"@,
                    interpretable(m),
                    model_keys(m.scope) == entry_keys(self.scope@),
                    n == self.scope@.len(),
                    i <= n,
                    pv == is_preset,
                    (pv, scope_model(ns@), calls_model(calls@)) == interp_global(m, is_preset, i as int),
                    forall|j: int| 0 <= j < calls@.len() ==> (#[trigger] calls@[j]).file_path@ == file_path@,
                decreases n - i,
            {
                let key = usize_to_string(i);
                proof {
                    assert(first_index(model_keys(m.scope), decimal(i as nat)) >= 0);
                    lemma_first_index(model_keys(m.scope), decimal(i as nat));
                }
                let idx = match find_key(&self.scope, key.as_str()) {
                    Some(x) => x,
                    None => 0,
                };
                let c = &self.scope[idx].1;
                proof {
                    assert(m.scope[idx as int].1 == c.model());
                    lemma_children_interpretable(m, n as int, idx as int);
                }
                Self::visit(self.render, c, pv, file_path, &mut ns, &mut calls);
                i = i + 1;
            }
        } else {
            let mut k: usize = 0;
            while k < n
                invariant
                    m == self.model(),
                    m.value != "SCOPE_GLOBAL"@,
                    interpretable(m),
                    n == self.scope@.len(),
                    k <= n,
                    (pv, scope_model(ns@), calls_model(calls@)) == interp_scope(m, is_preset, k as int),
                    forall|j: int| 0 <= j < calls@.len() ==> (#[trigger] calls@[j]).file_path@ == file_path@,
                decreases n - k,
            {
                let c = &self.scope[k].1;
                proof {
                    assert(m.scope[k as int].1 == c.model());
                    reveal_strlit("");
                    assert(""@ =~= Seq::<char>::empty());
                }
                if !same_text(c.value.as_str(), "") {
                    let np = same_text(c.value.as_str(), "NEW_PRESETS");
                    if np {
                        pv = true;
                    }
                    proof {
                        lemma_children_interpretable(m, n as int, k as int);
                    }
                    Self::visit(self.render, c, pv, file_path, &mut ns, &mut calls);
                    if np {
                        pv = false;
                    }
                }
                k = k + 1;
            }
        }
        let r = Node {
            value: self.value.clone(),
            render: self.render,
            tab_number: self.tab_number,
            scope: ns,
            args: duplicate_params(&self.args),
        };
        proof {
            assert(r.model().scope =~= scope_model(ns@));
            assert(r.model() == NodeModel { scope: scope_model(ns@), ..m });
        }
        if self.render && !pv && !same_text(self.value.as_str(), "") {
            let ghost cs0 = calls@;
            calls.push(PendingCall { node: r.duplicate(), is_preset: false, file_path: file_path.clone() });
            proof {
                assert(calls_model(calls@) =~= calls_model(cs0).push(CallModel { node: r.model(), is_preset: false }));
            }
        }
        proof {
            reveal_strlit("");
            assert(""@ =~= Seq::<char>::empty());
        }
        (r, calls)
    }
}

proof fn lemma_children_prefix_fails(n: NodeModel, k: int)
    requires
        0 < k <= n.scope.len(),
        !children_interpretable(n, k),
    ensures
        !children_interpretable(n, n.scope.len() as int),
    decreases n.scope.len() - k,
{
    if k < n.scope.len() {
        lemma_children_prefix_fails(n, k + 1);
    }
}

} // verus!
