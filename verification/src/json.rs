//! The library's own JSON shape: what decoded registry, manifest and lockfile
//! documents look like to the verified code. The surrounding shell parses
//! JSON text into this shape and serializes it back.
use vstd::prelude::*;

verus! {

/// A JSON value. Numbers carry their literal text: the dependency logic never
/// computes with them, it only carries them through unchanged.
pub enum JsonValue {
    Null,
    Bool(bool),
    Number(String),
    Str(String),
    Array(Vec<JsonValue>),
    Object(Vec<(String, JsonValue)>),
}

/// First value under the given key of an object's entry list.
pub open spec fn spec_field(es: Seq<(String, JsonValue)>, key: Seq<char>) -> Option<JsonValue>
    decreases es.len(),
{
    if es.len() == 0 {
        None
    } else if es[0].0@ == key {
        Some(es[0].1)
    } else {
        spec_field(es.drop_first(), key)
    }
}

/// First value under the given key, or `None` when the key is absent.
pub fn get_field<'a>(es: &'a Vec<(String, JsonValue)>, key: &str) -> (r: Option<&'a JsonValue>)
    ensures
        match r {
            Some(v) => spec_field(es@, key@) == Some(*v),
            None => spec_field(es@, key@) is None,
        },
{
    let n = es.len();
    let mut i: usize = 0;
    proof {
        assert(es@.skip(0int) =~= es@);
    }
    while i < n
        invariant
            0 <= i <= n,
            n == es@.len(),
            spec_field(es@, key@) == spec_field(es@.skip(i as int), key@),
        decreases n - i,
    {
        proof {
            assert(es@.skip(i as int)[0] == es@[i as int]);
            assert(es@.skip(i as int).drop_first() =~= es@.skip(i + 1));
        }
        if crate::bytes::str_eq(es[i].0.as_str(), key) {
            return Some(&es[i].1);
        }
        i += 1;
    }
    proof {
        assert(es@.skip(n as int).len() == 0);
    }
    None
}


/// Appending an entry leaves earlier lookups in place; a fresh key becomes
/// findable.
pub proof fn lemma_field_push(es: Seq<(String, JsonValue)>, e: (String, JsonValue), k: Seq<char>)
    ensures
        spec_field(es.push(e), k) == (if spec_field(es, k) is Some {
            spec_field(es, k)
        } else if e.0@ == k {
            Some(e.1)
        } else {
            None::<JsonValue>
        }),
    decreases es.len(),
{
    if es.len() == 0 {
        assert(es.push(e)[0] == e);
        assert(es.push(e).drop_first() =~= es);
    } else {
        assert(es.push(e)[0] == es[0]);
        assert(es.push(e).drop_first() =~= es.drop_first().push(e));
        lemma_field_push(es.drop_first(), e, k);
    }
}

} // verus!
