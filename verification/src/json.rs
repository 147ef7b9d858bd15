//! The library's own model of a decoded JSON document. The upstream
//! responses and the two cache files are handed in as values of this type;
//! every key lookup and shape check the pipeline makes is verified against
//! `lookup_field`. Numbers are modelled as unsigned 64-bit integers, which
//! covers every numeric field the pipeline reads; a caller maps any other
//! number to `Null`, which the decoders then reject as ill-shaped.

use vstd::prelude::*;

verus! {

pub enum JsonValue {
    Null,
    Bool(bool),
    Number(u64),
    Text(String),
    Array(Vec<JsonValue>),
    Object(Vec<(String, JsonValue)>),
}

/// The first field of the list with the given name, if any.
pub open spec fn lookup_field(fields: Seq<(String, JsonValue)>, key: Seq<char>) -> Option<
    JsonValue,
>
    decreases fields.len(),
{
    if fields.len() == 0 {
        None
    } else if fields[0].0@ == key {
        Some(fields[0].1)
    } else {
        lookup_field(fields.drop_first(), key)
    }
}

/// Key lookup on a document: a field of an object, nothing of any other shape.
pub open spec fn spec_get(v: JsonValue, key: Seq<char>) -> Option<JsonValue> {
    match v {
        JsonValue::Object(fields) => lookup_field(fields@, key),
        _ => None,
    }
}

proof fn lemma_lookup_skip(fields: Seq<(String, JsonValue)>, key: Seq<char>, i: int)
    requires
        0 <= i <= fields.len(),
        forall|j: int| 0 <= j < i ==> fields[j].0@ != key,
    ensures
        lookup_field(fields, key) == lookup_field(fields.skip(i), key),
    decreases i,
{
    if i > 0 {
        assert(fields[0].0@ != key);
        assert(forall|j: int| 0 <= j < i - 1 ==> fields.drop_first()[j].0@ != key);
        lemma_lookup_skip(fields.drop_first(), key, i - 1);
        assert(fields.drop_first().skip(i - 1) =~= fields.skip(i));
    } else {
        assert(fields.skip(0) =~= fields);
    }
}

impl JsonValue {
    /// The first field with the given name, if this document is an object
    /// that has one.
    pub fn get<'a>(&'a self, key: &str) -> (r: Option<&'a JsonValue>)
        ensures
            match r {
                Some(v) => spec_get(*self, key@) == Some(*v),
                None => spec_get(*self, key@) == None::<JsonValue>,
            },
    {
        match self {
            JsonValue::Object(fields) => {
                let k: String = key.to_owned();
                let n = fields.len();
                let mut i: usize = 0;
                while i < n
                    invariant
                        0 <= i <= n,
                        n == fields@.len(),
                        k@ == key@,
                        spec_get(*self, key@) == lookup_field(fields@, key@),
                        forall|j: int| 0 <= j < i ==> fields@[j].0@ != key@,
                    decreases n - i,
                {
                    if fields[i].0.eq(&k) {
                        proof {
                            lemma_lookup_skip(fields@, key@, i as int);
                            assert(fields@.skip(i as int)[0] == fields@[i as int]);
                            assert(fields@[i as int].0@ == key@);
                            assert(lookup_field(fields@.skip(i as int), key@) == Some(
                                fields@[i as int].1));
                        }
                        return Some(&fields[i].1);
                    }
                    i = i + 1;
                }
                proof {
                    lemma_lookup_skip(fields@, key@, n as int);
                    assert(fields@.skip(n as int).len() == 0);
                }
                None
            },
            _ => None,
        }
    }
}

} // verus!
