//! Trusted bridge to `serde_json` values.
//!
//! Scene documents arrive as `serde_json::Value` trees.  The value type is
//! opaque here; these wrappers only take such trees apart into plain owned
//! pieces that the verified scene builder consumes.
use vstd::prelude::*;

verus! {

#[verifier::external_type_specification]
#[verifier::external_body]
pub struct ExValue(serde_json::Value);

/// Relies on `serde_json::Value::clone`: the copy equals the original.
pub assume_specification[ <serde_json::Value as Clone>::clone ](v: &serde_json::Value) -> (r:
    serde_json::Value)
    ensures
        r == *v,
;

/// What `serde_json::Value::get` returns for a value and a key: a function
/// of its arguments alone.
pub uninterp spec fn field_of(v: serde_json::Value, key: Seq<char>) -> Option<serde_json::Value>;

/// What `serde_json::Value::as_array` returns: the element sequence of an
/// array value, a function of the value alone.
pub uninterp spec fn elements_of(v: serde_json::Value) -> Option<Seq<serde_json::Value>>;

/// What `serde_json::Value::as_object` returns, read off in key order: a
/// function of the value alone.
pub uninterp spec fn entries_of(v: serde_json::Value) -> Option<
    Seq<(Seq<char>, serde_json::Value)>,
>;

/// Relies on `serde_json::Value::get`: the named member of an object value,
/// or `None` for other values and missing names.
#[verifier::external_body]
pub fn value_field<'a>(value: &'a serde_json::Value, key: &str) -> (r: Option<
    &'a serde_json::Value,
>)
    ensures
        r is Some <==> field_of(*value, key@) is Some,
        r is Some ==> *r.unwrap() == field_of(*value, key@).unwrap(),
{
    value.get(key)
}

/// Relies on `serde_json::Value::as_array`: the elements of an array value,
/// or `None` for other values.
#[verifier::external_body]
pub fn value_elements(value: &serde_json::Value) -> (r: Option<Vec<serde_json::Value>>)
    ensures
        r is Some <==> elements_of(*value) is Some,
        r is Some ==> r.unwrap()@ == elements_of(*value).unwrap(),
{
    value.as_array().map(|items| items.iter().map(|item| item.clone()).collect())
}

/// Relies on `serde_json::Value::as_object`: the key/value entries of an
/// object value in key order, or `None` for other values.
#[verifier::external_body]
pub fn value_entries(value: &serde_json::Value) -> (r: Option<
    Vec<(String, serde_json::Value)>,
>)
    ensures
        r is Some <==> entries_of(*value) is Some,
        r is Some ==> ({
            let es = entries_of(*value).unwrap();
            &&& r.unwrap()@.len() == es.len()
            &&& forall|i: int|
                0 <= i < es.len() ==> (#[trigger] r.unwrap()@[i]).0@ == es[i].0
                    && r.unwrap()@[i].1 == es[i].1
        }),
{
    value.as_object().map(|m| m.iter().map(|(k, v)| (k.clone(), v.clone())).collect())
}

} // verus!
