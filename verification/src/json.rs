//! A JSON document as plain values, and member lookup in objects.
use vstd::prelude::*;

verus! {

/// A JSON value. An object keeps its members in order; a lookup takes the
/// first member with the key.
#[derive(Debug)]
pub enum JsonValue {
    Null,
    Bool(bool),
    /// A number, by its textual form.
    Number(String),
    String(String),
    Array(Vec<JsonValue>),
    Object(Vec<(String, JsonValue)>),
}

/// The position of the first member of `entries` whose key is `key`.
pub open spec fn obj_index(entries: Seq<(String, JsonValue)>, key: Seq<char>) -> Option<int>
    decreases entries.len(),
{
    if entries.len() == 0 {
        None
    } else if entries.last().0@ == key && obj_index(entries.drop_last(), key) is None {
        Some(entries.len() - 1)
    } else {
        obj_index(entries.drop_last(), key)
    }
}

/// The value of the first member of `entries` whose key is `key`.
pub open spec fn obj_get(entries: Seq<(String, JsonValue)>, key: Seq<char>) -> Option<JsonValue> {
    match obj_index(entries, key) {
        Some(k) => Some(entries[k].1),
        None => None,
    }
}

/// The text of a value that is a JSON string.
pub open spec fn as_str(v: Option<JsonValue>) -> Option<Seq<char>> {
    match v {
        Some(JsonValue::String(s)) => Some(s@),
        _ => None,
    }
}

pub proof fn lemma_obj_index_bounds(entries: Seq<(String, JsonValue)>, key: Seq<char>)
    ensures
        obj_index(entries, key) matches Some(k) ==> 0 <= k < entries.len() && entries[k].0@ == key,
        obj_index(entries, key) is None ==> forall|j: int| 0 <= j < entries.len() ==> entries[j].0@ != key,
        obj_index(entries, key) matches Some(k) ==> forall|j: int| 0 <= j < k ==> entries[j].0@ != key,
    decreases entries.len(),
{
    if entries.len() > 0 {
        lemma_obj_index_bounds(entries.drop_last(), key);
        assert forall|j: int| 0 <= j < entries.len() - 1 implies entries[j] == entries.drop_last()[j] by {}
    }
}

/// The value of the first member of `entries` whose key is `key`.
pub fn object_get<'a>(entries: &'a Vec<(String, JsonValue)>, key: &str) -> (res: Option<&'a JsonValue>)
    ensures
        match res {
            Some(v) => obj_get(entries@, key@) == Some(*v),
            None => obj_get(entries@, key@) is None,
        },
{
    let key_string = key.to_string();
    let mut i: usize = 0;
    proof {
        lemma_obj_index_bounds(entries@, key@);
    }
    while i < entries.len()
        invariant
            i <= entries.len(),
            key_string@ == key@,
            forall|j: int| 0 <= j < i ==> entries@[j].0@ != key@,
        decreases entries.len() - i,
    {
        if entries[i].0 == key_string {
            proof {
                lemma_obj_index_bounds(entries@, key@);
            }
            return Some(&entries[i].1);
        }
        i += 1;
    }
    proof {
        lemma_obj_index_bounds(entries@, key@);
    }
    None
}

/// The text of `v` when it is a JSON string.
pub fn value_as_str(v: Option<&JsonValue>) -> (res: Option<String>)
    ensures
        match res {
            Some(s) => v.is_some() && as_str(Some(*v.unwrap())) == Some(s@),
            None => v.is_none() || as_str(Some(*v.unwrap())) is None,
        },
{
    match v {
        Some(JsonValue::String(s)) => Some(s.clone()),
        _ => None,
    }
}

} // verus!
