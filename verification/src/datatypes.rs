//! The template tree: parameters, nodes, their mathematical models, and the
//! keyed scopes in which a node holds its children.
use vstd::prelude::*;

verus! {

/// An argument of a template: its text and the type it was recognised as
/// (`str`, `time`, `number` or `keyword`).
pub struct Parameter {
    pub value: String,
    pub var_type: String,
}

pub struct ParameterModel {
    pub value: Seq<char>,
    pub var_type: Seq<char>,
}

impl View for Parameter {
    type V = ParameterModel;

    open spec fn view(&self) -> ParameterModel {
        ParameterModel { value: self.value@, var_type: self.var_type@ }
    }
}

impl Parameter {
    pub fn duplicate(&self) -> (r: Parameter)
        ensures
            r@ == self@,
    {
        Parameter { value: self.value.clone(), var_type: self.var_type.clone() }
    }
}

/// A template (or a piece of text) of a source file. `scope` holds the child
/// templates under their keys; a key occurs at most once in the scopes that
/// the library itself builds (see [`scopes_distinct`]), and where a caller's
/// scope repeats a key, the first entry with it is the one that lookups find.
pub struct Node {
    pub value: String,
    pub render: bool,
    pub tab_number: i32,
    pub scope: Vec<(String, Node)>,
    pub args: Vec<Parameter>,
}

/// The mathematical model of a [`Node`].
pub struct NodeModel {
    pub value: Seq<char>,
    pub render: bool,
    pub tab_number: int,
    pub scope: Seq<(Seq<char>, NodeModel)>,
    pub args: Seq<ParameterModel>,
}

pub open spec fn empty_model() -> NodeModel {
    NodeModel {
        value: Seq::empty(),
        render: false,
        tab_number: 0,
        scope: Seq::empty(),
        args: Seq::empty(),
    }
}

pub open spec fn params_model(v: Seq<Parameter>) -> Seq<ParameterModel> {
    v.map_values(|p: Parameter| p@)
}

impl Node {
    pub open spec fn model(self) -> NodeModel
        decreases self,
    {
        NodeModel {
            value: self.value@,
            render: self.render,
            tab_number: self.tab_number as int,
            scope: Seq::new(
                self.scope@.len(),
                |i: int|
                    if 0 <= i < self.scope@.len() {
                        (self.scope@[i].0@, self.scope@[i].1.model())
                    } else {
                        (Seq::empty(), empty_model())
                    },
            ),
            args: params_model(self.args@),
        }
    }

    /// A deep copy.
    pub fn duplicate(&self) -> (r: Node)
        ensures
            r.model() == self.model(),
        decreases self,
    {
        let mut scope: Vec<(String, Node)> = Vec::new();
        let mut i: usize = 0;
        while i < self.scope.len()
            invariant
                i <= self.scope@.len(),
                scope@.len() == i,
                forall|j: int|
                    0 <= j < i ==> #[trigger] scope@[j].0@ == self.scope@[j].0@ && scope@[j].1.model()
                        == self.scope@[j].1.model(),
            decreases self.scope@.len() - i,
        {
            let k = self.scope[i].0.clone();
            let c = self.scope[i].1.duplicate();
            scope.push((k, c));
            i = i + 1;
        }
        let args = duplicate_params(&self.args);
        let r = Node {
            value: self.value.clone(),
            render: self.render,
            tab_number: self.tab_number,
            scope,
            args,
        };
        assert(r.model().scope =~= self.model().scope);
        r
    }
}

pub fn duplicate_params(v: &Vec<Parameter>) -> (r: Vec<Parameter>)
    ensures
        params_model(r@) == params_model(v@),
{
    let mut args: Vec<Parameter> = Vec::new();
    let mut i: usize = 0;
    while i < v.len()
        invariant
            i <= v@.len(),
            args@.len() == i,
            forall|j: int| 0 <= j < i ==> #[trigger] args@[j]@ == v@[j]@,
        decreases v@.len() - i,
    {
        args.push(v[i].duplicate());
        i = i + 1;
    }
    assert(params_model(args@) =~= params_model(v@));
    args
}

// ---------------------------------------------------------------------------
// Keyed scopes
// ---------------------------------------------------------------------------

/// The position of the first occurrence of `k` in `keys`, or -1.
pub open spec fn first_index(keys: Seq<Seq<char>>, k: Seq<char>) -> int
    decreases keys.len(),
{
    if keys.len() == 0 {
        -1
    } else {
        let r = first_index(keys.drop_last(), k);
        if r >= 0 {
            r
        } else if keys.last() == k {
            keys.len() - 1
        } else {
            -1
        }
    }
}

pub proof fn lemma_first_index(keys: Seq<Seq<char>>, k: Seq<char>)
    ensures
        -1 <= first_index(keys, k) < keys.len(),
        first_index(keys, k) == -1 <==> (forall|j: int| 0 <= j < keys.len() ==> keys[j] != k),
        first_index(keys, k) >= 0 ==> keys[first_index(keys, k)] == k && (forall|j: int|
            0 <= j < first_index(keys, k) ==> keys[j] != k),
    decreases keys.len(),
{
    if keys.len() > 0 {
        lemma_first_index(keys.drop_last(), k);
        let r = first_index(keys.drop_last(), k);
        if r < 0 && keys.last() != k {
            assert forall|j: int| 0 <= j < keys.len() implies keys[j] != k by {
                if j < keys.len() - 1 {
                    assert(keys.drop_last()[j] == keys[j]);
                }
            }
        }
        if r < 0 && keys.last() == k {
            assert forall|j: int| 0 <= j < keys.len() - 1 implies keys[j] != k by {
                assert(keys.drop_last()[j] == keys[j]);
            }
        }
        if r >= 0 {
            assert(keys.drop_last()[r] == keys[r]);
            assert forall|j: int| 0 <= j < r implies keys[j] != k by {
                assert(keys.drop_last()[j] == keys[j]);
            }
        }
    }
}

/// The keys of a scope of the models.
pub open spec fn model_keys(s: Seq<(Seq<char>, NodeModel)>) -> Seq<Seq<char>> {
    s.map_values(|e: (Seq<char>, NodeModel)| e.0)
}

/// The keys of a stored scope.
pub open spec fn entry_keys<X>(s: Seq<(String, X)>) -> Seq<Seq<char>> {
    s.map_values(|e: (String, X)| e.0@)
}

/// `HashMap::insert` on a keyed scope: the entry with the key is replaced in
/// place, or the pair is added at the end.
pub open spec fn assoc_insert<V>(s: Seq<(Seq<char>, V)>, k: Seq<char>, v: V) -> Seq<(Seq<char>, V)> {
    let i = first_index(s.map_values(|e: (Seq<char>, V)| e.0), k);
    if i < 0 {
        s.push((k, v))
    } else {
        s.update(i, (k, v))
    }
}

/// No key occurs twice.
pub open spec fn distinct_keys<V>(s: Seq<(Seq<char>, V)>) -> bool {
    forall|i: int, j: int| 0 <= i < j < s.len() ==> s[i].0 != s[j].0
}

/// Every scope of the tree holds each key at most once.
pub open spec fn scopes_distinct(n: NodeModel) -> bool
    decreases n,
{
    &&& distinct_keys(n.scope)
    &&& forall|k: int| 0 <= k < n.scope.len() ==> scopes_distinct(#[trigger] n.scope[k].1)
}

/// Whether a keyed scope has the key.
pub open spec fn assoc_has<V>(s: Seq<(Seq<char>, V)>, k: Seq<char>) -> bool {
    first_index(s.map_values(|e: (Seq<char>, V)| e.0), k) >= 0
}

/// The value under a key (meaningful where `assoc_has` holds).
pub open spec fn assoc_get<V>(s: Seq<(Seq<char>, V)>, k: Seq<char>) -> V {
    s[first_index(s.map_values(|e: (Seq<char>, V)| e.0), k)].1
}

/// The model of a stored scope.
pub open spec fn scope_model(s: Seq<(String, Node)>) -> Seq<(Seq<char>, NodeModel)> {
    Seq::new(s.len(), |i: int| (s[i].0@, s[i].1.model()))
}

pub proof fn lemma_scope_model(n: Node)
    ensures
        n.model().scope == scope_model(n.scope@),
        model_keys(n.model().scope) == entry_keys(n.scope@),
{
    assert(n.model().scope =~= scope_model(n.scope@));
    assert(model_keys(n.model().scope) =~= entry_keys(n.scope@));
}

/// The first position of `key` in a stored scope.
pub fn find_key<X>(s: &Vec<(String, X)>, key: &str) -> (r: Option<usize>)
    ensures
        match r {
            Some(i) => i == first_index(entry_keys(s@), key@),
            None => first_index(entry_keys(s@), key@) == -1,
        },
{
    proof {
        lemma_first_index(entry_keys(s@), key@);
    }
    let mut i: usize = 0;
    while i < s.len()
        invariant
            i <= s@.len(),
            forall|j: int| 0 <= j < i ==> s@[j].0@ != key@,
        decreases s@.len() - i,
    {
        if crate::text::same_text(s[i].0.as_str(), key) {
            proof {
                lemma_first_index(entry_keys(s@), key@);
                let f = first_index(entry_keys(s@), key@);
                assert(entry_keys(s@)[i as int] == key@);
                if 0 <= f < i {
                    assert(entry_keys(s@)[f] == s@[f].0@);
                }
            }
            return Some(i);
        }
        i = i + 1;
    }
    proof {
        assert forall|j: int| 0 <= j < entry_keys(s@).len() implies entry_keys(s@)[j] != key@ by {
            assert(entry_keys(s@)[j] == s@[j].0@);
        }
    }
    None
}

/// `HashMap::insert` on a stored scope.
pub fn entry_insert<X>(s: &mut Vec<(String, X)>, key: String, x: X)
    ensures
        ({
            let i = first_index(entry_keys(old(s)@), key@);
            if i < 0 {
                final(s)@ == old(s)@.push((key, x))
            } else {
                final(s)@ == old(s)@.update(i, (key, x))
            }
        }),
{
    match find_key(s, key.as_str()) {
        Some(i) => {
            proof {
                lemma_first_index(entry_keys(s@), key@);
            }
            s.set(i, (key, x));
        },
        None => {
            s.push((key, x));
        },
    }
}

pub proof fn lemma_entry_insert_model(s: Seq<(String, Node)>, key: String, x: Node)
    ensures
        ({
            let i = first_index(entry_keys(s), key@);
            let t = if i < 0 {
                s.push((key, x))
            } else {
                s.update(i, (key, x))
            };
            scope_model(t) == assoc_insert(scope_model(s), key@, x.model())
        }),
{
    let m = scope_model(s);
    assert(m.map_values(|e: (Seq<char>, NodeModel)| e.0) =~= entry_keys(s));
    lemma_first_index(entry_keys(s), key@);
    let i = first_index(entry_keys(s), key@);
    if i < 0 {
        assert(scope_model(s.push((key, x))) =~= assoc_insert(m, key@, x.model()));
    } else {
        assert(scope_model(s.update(i, (key, x))) =~= assoc_insert(m, key@, x.model()));
    }
}

} // verus!
