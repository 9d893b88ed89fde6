//! The settings argument: `key:value,` pairs.
use vstd::prelude::*;
use crate::datatypes::{assoc_insert, distinct_keys, entry_insert, entry_keys, first_index, lemma_first_index};
use crate::text::{chars_of, push_char};

verus! {

/// The state after reading `s`: the key and the value read so far (neither is
/// ever cleared, so each pair extends the previous one), whether a key is
/// being read, and the pairs stored at each `,`.
pub open spec fn settings_scan(s: Seq<char>) -> (Seq<char>, Seq<char>, bool, Seq<(Seq<char>, Seq<char>)>)
    decreases s.len(),
{
    if s.len() == 0 {
        (Seq::empty(), Seq::empty(), true, Seq::empty())
    } else {
        let (k, v, is_key, m) = settings_scan(s.drop_last());
        let c = s.last();
        if c == ':' {
            (k, v, false, m)
        } else if c == ',' {
            (k, v, true, assoc_insert(m, k, v))
        } else if is_key {
            (k.push(c), v, is_key, m)
        } else {
            (k, v.push(c), is_key, m)
        }
    }
}

/// The settings read from `raw`, in the order their keys first appear.
pub open spec fn settings_model(raw: Seq<char>) -> Seq<(Seq<char>, Seq<char>)> {
    settings_scan(raw).3
}

pub open spec fn pairs_model(v: Seq<(String, String)>) -> Seq<(Seq<char>, Seq<char>)> {
    v.map_values(|e: (String, String)| (e.0@, e.1@))
}

/// Reads the settings argument. Each `,` stores the key and value read so
/// far, replacing the value of a key that is stored already.
pub fn parse_settings_arg(raw_settings: String) -> (r: Vec<(String, String)>)
    ensures
        pairs_model(r@) == settings_model(raw_settings@),
        distinct_keys(pairs_model(r@)),
{
    let cs = chars_of(raw_settings.as_str());
    let mut ret_val: Vec<(String, String)> = Vec::new();
    let mut key_buffer = String::new();
    let mut value_buffer = String::new();
    let mut is_key = true;
    let mut i: usize = 0;
    while i < cs.len()
        invariant
            cs@ == raw_settings@,
            i <= cs@.len(),
            settings_scan(cs@.take(i as int)) == (key_buffer@, value_buffer@, is_key, pairs_model(ret_val@)),
            distinct_keys(pairs_model(ret_val@)),
        decreases cs@.len() - i,
    {
        proof {
            assert(cs@.take(i + 1).drop_last() =~= cs@.take(i as int));
        }
        let c = cs[i];
        if c == ':' {
            is_key = false;
        } else if c == ',' {
            let ghost before = ret_val@;
            let k = key_buffer.clone();
            let v = value_buffer.clone();
            let ghost kg = k;
            let ghost vg = v;
            entry_insert(&mut ret_val, k, (v));
            proof {
                lemma_insert_pairs(before, kg, vg);
            }
            is_key = true;
        } else if is_key {
            push_char(&mut key_buffer, c);
        } else {
            push_char(&mut value_buffer, c);
        }
        i = i + 1;
    }
    assert(cs@.take(cs@.len() as int) =~= raw_settings@);
    ret_val
}

proof fn lemma_insert_pairs(s: Seq<(String, String)>, k: String, v: String)
    requires
        distinct_keys(pairs_model(s)),
    ensures
        ({
            let i = first_index(entry_keys(s), k@);
            let t = if i < 0 {
                s.push((k, v))
            } else {
                s.update(i, (k, v))
            };
            &&& pairs_model(t) == assoc_insert(pairs_model(s), k@, v@)
            &&& distinct_keys(pairs_model(t))
        }),
{
    let m = pairs_model(s);
    assert(m.map_values(|e: (Seq<char>, Seq<char>)| e.0) =~= entry_keys(s));
    lemma_first_index(entry_keys(s), k@);
    let i = first_index(entry_keys(s), k@);
    if i < 0 {
        let t = s.push((k, v));
        assert(pairs_model(t) =~= assoc_insert(m, k@, v@));
        assert forall|a: int, b: int| 0 <= a < b < pairs_model(t).len() implies pairs_model(t)[a].0
            != pairs_model(t)[b].0 by {
            if b == s.len() {
                assert(entry_keys(s)[a] == pairs_model(t)[a].0);
            }
        }
    } else {
        let t = s.update(i, (k, v));
        assert(pairs_model(t) =~= assoc_insert(m, k@, v@));
        assert forall|a: int, b: int| 0 <= a < b < pairs_model(t).len() implies pairs_model(t)[a].0
            != pairs_model(t)[b].0 by {
            assert(entry_keys(s)[a] == m[a].0);
            assert(entry_keys(s)[b] == m[b].0);
        }
    }
}

} // verus!
