//! Values of JSON documents, as far as this crate has to look into them.

use vstd::prelude::*;

verus! {

/// A JSON number. A number that is written as an integer and fits has its
/// value as `i64`, as `u64`, or as both; every number has the bits of the
/// 64-bit float and of the 32-bit float that are nearest to it.
#[derive(Clone, Copy, Debug, PartialEq, Eq, Structural)]
pub struct JsonNumber {
    pub as_i64: Option<i64>,
    pub as_u64: Option<u64>,
    pub f64_bits: u64,
    pub f32_bits: u32,
}

impl JsonNumber {
    /// The value of a number that is written as an integer.
    pub open spec fn int_value(self) -> Option<int> {
        match self.as_i64 {
            Some(x) => Some(x as int),
            None => match self.as_u64 {
                Some(u) => Some(u as int),
                None => None,
            },
        }
    }

    /// The number zero.
    pub fn zero() -> (n: JsonNumber)
        ensures
            n.int_value() == Some(0int),
            n.f64_bits == 0,
            n.f32_bits == 0,
    {
        JsonNumber { as_i64: Some(0), as_u64: Some(0), f64_bits: 0, f32_bits: 0 }
    }
}

/// A JSON value. The members of an object are kept in the order of the
/// document.
#[derive(Debug)]
pub enum JsonValue {
    Null,
    Bool(bool),
    Number(JsonNumber),
    String(String),
    Array(Vec<JsonValue>),
    Object(Vec<(String, JsonValue)>),
}

/// The members of a JSON object, in the order of the document.
pub type JsonObject = Vec<(String, JsonValue)>;

/// Position of the first member with the given key; the number of members
/// where there is none.
pub open spec fn spec_find_key(obj: Seq<(String, JsonValue)>, key: Seq<char>) -> int
    decreases obj.len(),
{
    if obj.len() == 0 {
        0
    } else if obj[0].0@ == key {
        0
    } else {
        1 + spec_find_key(obj.drop_first(), key)
    }
}

pub proof fn lemma_find_key(obj: Seq<(String, JsonValue)>, key: Seq<char>)
    ensures
        0 <= spec_find_key(obj, key) <= obj.len(),
        forall|i: int| 0 <= i < spec_find_key(obj, key) ==> (#[trigger] obj[i]).0@ != key,
        spec_find_key(obj, key) < obj.len() ==> obj[spec_find_key(obj, key)].0@ == key,
    decreases obj.len(),
{
    if obj.len() > 0 && obj[0].0@ != key {
        let rest = obj.drop_first();
        lemma_find_key(rest, key);
        assert forall|i: int| 0 <= i < spec_find_key(obj, key) implies (#[trigger] obj[i]).0@
            != key by {
            if i > 0 {
                assert(obj[i] == rest[i - 1]);
            }
        }
        let m = spec_find_key(rest, key);
        if m < rest.len() {
            assert(rest[m] == obj[m + 1]);
        }
    }
}

/// The first member with the given key stands where a member with the
/// key stands behind members with other keys.
pub proof fn lemma_found_key(obj: Seq<(String, JsonValue)>, key: Seq<char>, p: int)
    requires
        0 <= p < obj.len(),
        obj[p].0@ == key,
        forall|i: int| 0 <= i < p ==> (#[trigger] obj[i]).0@ != key,
    ensures
        spec_find_key(obj, key) == p,
    decreases p,
{
    if p > 0 {
        let rest = obj.drop_first();
        assert(obj[0].0@ != key);
        assert forall|i: int| 0 <= i < p - 1 implies (#[trigger] rest[i]).0@ != key by {
            assert(rest[i] == obj[i + 1]);
        }
        assert(rest[p - 1] == obj[p]);
        lemma_found_key(rest, key, p - 1);
    }
}

/// Position of the first member with the given key, if there is one.
pub fn find_key(obj: &Vec<(String, JsonValue)>, key: &str) -> (r: Option<usize>)
    ensures
        r matches Some(i) ==> i == spec_find_key(obj@, key@) && i < obj@.len(),
        r.is_none() ==> spec_find_key(obj@, key@) == obj@.len(),
{
    proof {
        lemma_find_key(obj@, key@);
    }
    let k = crate::text::chars_of(key);
    let mut i: usize = 0;
    while i < obj.len()
        invariant
            k@ == key@,
            i <= obj@.len(),
            0 <= spec_find_key(obj@, key@) <= obj@.len(),
            forall|j: int| 0 <= j < spec_find_key(obj@, key@) ==> (#[trigger] obj@[j]).0@ != key@,
            spec_find_key(obj@, key@) < obj@.len() ==> obj@[spec_find_key(obj@, key@)].0@ == key@,
            forall|j: int| 0 <= j < i ==> (#[trigger] obj@[j]).0@ != key@,
        decreases obj@.len() - i,
    {
        let name = crate::text::chars_of(obj[i].0.as_str());
        if crate::text::chars_equal(name.as_slice(), k.as_slice()) {
            return Some(i);
        }
        i += 1;
    }
    None
}

/// Whether the object has a member with the given key.
pub fn has_key(obj: &Vec<(String, JsonValue)>, key: &str) -> (b: bool)
    ensures
        b == (spec_find_key(obj@, key@) < obj@.len()),
{
    find_key(obj, key).is_some()
}

/// The value of the first member with the given key, if there is one.
pub fn get_value<'a>(obj: &'a Vec<(String, JsonValue)>, key: &str) -> (r: Option<&'a JsonValue>)
    ensures
        r matches Some(v) ==> spec_find_key(obj@, key@) < obj@.len() && *v == obj@[spec_find_key(
            obj@,
            key@,
        )].1,
        r.is_none() ==> spec_find_key(obj@, key@) == obj@.len(),
{
    match find_key(obj, key) {
        Some(i) => Some(&obj[i].1),
        None => None,
    }
}

/// Whether `after` is `before` with the value under `key`: the first
/// member with the key has the new value and `had` is the value it had, or,
/// where no member had the key, a member with key and value stands at the
/// end and `had` is nothing. Every other member is as it was.
pub open spec fn is_inserted(
    before: Seq<(String, JsonValue)>,
    after: Seq<(String, JsonValue)>,
    key: Seq<char>,
    value: JsonValue,
    had: Option<JsonValue>,
) -> bool {
    let i = spec_find_key(before, key);
    if i < before.len() {
        &&& had == Some(before[i].1)
        &&& after.len() == before.len()
        &&& after[i].0@ == key
        &&& after[i].1 == value
        &&& forall|j: int| 0 <= j < before.len() && j != i ==> after[j] == before[j]
    } else {
        &&& had.is_none()
        &&& after.len() == before.len() + 1
        &&& after.last().0@ == key
        &&& after.last().1 == value
        &&& after.drop_last() == before
    }
}

/// Whether `after` is `before` without the first member with the key, and
/// `had` the value of that member; or, where no member has the key, `after`
/// is `before` and `had` is nothing.
pub open spec fn is_removed(
    before: Seq<(String, JsonValue)>,
    after: Seq<(String, JsonValue)>,
    key: Seq<char>,
    had: Option<JsonValue>,
) -> bool {
    let i = spec_find_key(before, key);
    if i < before.len() {
        had == Some(before[i].1) && after == before.remove(i)
    } else {
        had.is_none() && after == before
    }
}

/// Gives the first member with the given key the value, or adds the
/// member at the end; gives the value that stood there, if any.
pub fn insert_value(obj: &mut Vec<(String, JsonValue)>, key: &str, value: JsonValue) -> (r: Option<
    JsonValue,
>)
    ensures
        is_inserted(old(obj)@, final(obj)@, key@, value, r),
        r is Some <==> spec_find_key(old(obj)@, key@) < old(obj)@.len(),
        spec_find_key(final(obj)@, key@) == spec_find_key(old(obj)@, key@),
        spec_find_key(final(obj)@, key@) < final(obj)@.len(),
        final(obj)@[spec_find_key(final(obj)@, key@)].1 == value,
        spec_find_key(old(obj)@, key@) < old(obj)@.len() ==> r == Some(
            old(obj)@[spec_find_key(old(obj)@, key@)].1,
        ) && final(obj)@.len() == old(obj)@.len() && final(obj)@[spec_find_key(
            old(obj)@,
            key@,
        )].1 == value && final(obj)@[spec_find_key(old(obj)@, key@)].0@ == key@ && forall|j: int|
            0 <= j < old(obj)@.len() && j != spec_find_key(old(obj)@, key@) ==> final(obj)@[j]
                == old(obj)@[j],
        spec_find_key(old(obj)@, key@) == old(obj)@.len() ==> r.is_none() && final(obj)@.len()
            == old(obj)@.len() + 1 && final(obj)@.last().1 == value && final(obj)@.last().0@
            == key@ && final(obj)@.drop_last() == old(obj)@,
{
    proof {
        lemma_find_key(obj@, key@);
    }
    match find_key(obj, key) {
        Some(i) => {
            let mut pair = (crate::text::string_from_chars(crate::text::chars_of(key).as_slice()), value);
            let ghost before = obj@;
            let mut taken = obj.remove(i);
            obj.insert(i, pair);
            assert forall|j: int| 0 <= j < before.len() && j != i implies obj@[j] == before[j] by {}
            proof {
                assert forall|j: int| 0 <= j < i implies (#[trigger] obj@[j]).0@ != key@ by {
                    assert(obj@[j] == before[j]);
                }
                lemma_found_key(obj@, key@, i as int);
            }
            Some(taken.1)
        },
        None => {
            let ghost before = obj@;
            obj.push((crate::text::string_from_chars(crate::text::chars_of(key).as_slice()), value));
            assert(obj@.drop_last() =~= before);
            proof {
                assert forall|j: int| 0 <= j < before.len() implies (#[trigger] obj@[j]).0@
                    != key@ by {
                    assert(obj@[j] == before[j]);
                }
                lemma_found_key(obj@, key@, before.len() as int);
            }
            None
        },
    }
}

/// Takes the first member with the given key out and gives its value, if
/// there is one.
pub fn remove_value(obj: &mut Vec<(String, JsonValue)>, key: &str) -> (r: Option<JsonValue>)
    ensures
        is_removed(old(obj)@, final(obj)@, key@, r),
        r is Some <==> spec_find_key(old(obj)@, key@) < old(obj)@.len(),
        0 <= spec_find_key(old(obj)@, key@) <= old(obj)@.len(),
        spec_find_key(old(obj)@, key@) < old(obj)@.len() ==> r == Some(
            old(obj)@[spec_find_key(old(obj)@, key@)].1,
        ) && final(obj)@ == old(obj)@.remove(spec_find_key(old(obj)@, key@)),
        spec_find_key(old(obj)@, key@) == old(obj)@.len() ==> r.is_none() && final(obj)@ == old(
            obj,
        )@,
{
    proof {
        lemma_find_key(obj@, key@);
    }
    match find_key(obj, key) {
        Some(i) => {
            let taken = obj.remove(i);
            Some(taken.1)
        },
        None => None,
    }
}

} // verus!
