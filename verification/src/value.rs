//! The hierarchical data value a template is rendered against, and the rules
//! the renderer applies to it: truthiness, printability, canonical text form,
//! and structural member access.

use vstd::prelude::*;
use vstd::string::*;

use crate::num::{append_i64_dec, int_str};
use crate::text::str_eq;

verus! {

/// A uniform hierarchical value: the data model templates are evaluated
/// against. Numbers are integers; an object is a sequence of key/value
/// entries, looked up by first match.
#[derive(Debug, PartialEq)]
pub enum Value {
    Null,
    Bool(bool),
    Int(i64),
    Str(String),
    Array(Vec<Value>),
    Object(Vec<(String, Value)>),
}

/// Whether the value can be emitted as primitive text: arrays and objects
/// cannot (unless routed through a formatter).
pub open spec fn is_printable(v: Value) -> bool {
    !(v is Array) && !(v is Object)
}

/// Whether the value can be evaluated for truthiness: objects cannot.
pub open spec fn has_truthiness(v: Value) -> bool {
    !(v is Object)
}

/// The truthiness of a value: null is false, a boolean is itself, a number
/// is true iff nonzero, a string or array is true iff non-empty.
pub open spec fn truthy(v: Value) -> bool {
    match v {
        Value::Null => false,
        Value::Bool(b) => b,
        Value::Int(i) => i != 0,
        Value::Str(s) => s@.len() > 0,
        Value::Array(a) => a@.len() > 0,
        Value::Object(_) => false,
    }
}

/// The canonical text a printable value emits: null emits nothing, booleans
/// and numbers their decimal text form, strings their raw content.
pub open spec fn value_text(v: Value) -> Seq<char> {
    match v {
        Value::Null => Seq::<char>::empty(),
        Value::Bool(b) => if b {
            "true"@
        } else {
            "false"@
        },
        Value::Int(i) => int_str(i as int),
        Value::Str(s) => s@,
        Value::Array(_) => Seq::<char>::empty(),
        Value::Object(_) => Seq::<char>::empty(),
    }
}

/// The first entry whose key equals `key`, if any.
pub open spec fn obj_get(entries: Seq<(String, Value)>, key: Seq<char>) -> Option<Value>
    decreases entries.len(),
{
    if entries.len() == 0 {
        None
    } else if entries[0].0@ == key {
        Some(entries[0].1)
    } else {
        obj_get(entries.drop_first(), key)
    }
}

/// Structural member access: objects resolve keys, nothing else does.
pub open spec fn value_get(v: Value, key: Seq<char>) -> Option<Value> {
    match v {
        Value::Object(entries) => obj_get(entries@, key),
        _ => None,
    }
}

/// The keys of the entries, in order.
pub open spec fn object_keys(entries: Seq<(String, Value)>) -> Seq<Seq<char>> {
    entries.map_values(|e: (String, Value)| e.0@)
}

proof fn lemma_obj_get_skip(entries: Seq<(String, Value)>, key: Seq<char>, i: int)
    requires
        0 <= i <= entries.len(),
        forall|j: int| 0 <= j < i ==> (#[trigger] entries[j]).0@ != key,
    ensures
        obj_get(entries, key) == obj_get(entries.skip(i), key),
    decreases i,
{
    if i == 0 {
        assert(entries.skip(0) =~= entries);
    } else {
        lemma_obj_get_skip(entries.drop_first(), key, i - 1);
        assert(entries.drop_first().skip(i - 1) =~= entries.skip(i));
    }
}

/// Evaluates the truthiness of a value that has one.
pub fn truthy_exec(v: &Value) -> (r: bool)
    requires
        has_truthiness(*v),
    ensures
        r == truthy(*v),
{
    match v {
        Value::Null => false,
        Value::Bool(b) => *b,
        Value::Int(i) => *i != 0,
        Value::Str(s) => s.as_str().unicode_len() > 0,
        Value::Array(a) => a.len() > 0,
        Value::Object(_) => false,
    }
}

/// Looks up one member of a value by key.
pub fn value_get_exec<'a>(v: &'a Value, key: &str) -> (r: Option<&'a Value>)
    ensures
        match r {
            Some(x) => value_get(*v, key@) == Some(*x),
            None => value_get(*v, key@) is None,
        },
{
    match v {
        Value::Object(entries) => {
            let n = entries.len();
            let mut i: usize = 0;
            while i < n
                invariant
                    n == entries@.len(),
                    0 <= i <= n,
                    value_get(*v, key@) == obj_get(entries@, key@),
                    forall|j: int| 0 <= j < i ==> (#[trigger] entries@[j]).0@ != key@,
                decreases n - i,
            {
                if str_eq(entries[i].0.as_str(), key) {
                    proof {
                        lemma_obj_get_skip(entries@, key@, i as int);
                        assert(entries@.skip(i as int)[0] == entries@[i as int]);
                    }
                    return Some(&entries[i].1);
                }
                i = i + 1;
            }
            proof {
                lemma_obj_get_skip(entries@, key@, n as int);
                assert(entries@.skip(n as int).len() == 0);
            }
            None
        },
        _ => None,
    }
}

/// Copies the keys of an object's entries, for lookup diagnostics.
pub fn object_keys_exec(entries: &Vec<(String, Value)>) -> (r: Vec<String>)
    ensures
        crate::error::strings_view(r@) == object_keys(entries@),
{
    let mut out: Vec<String> = Vec::new();
    let n = entries.len();
    let mut i: usize = 0;
    while i < n
        invariant
            n == entries@.len(),
            0 <= i <= n,
            out@.len() == i,
            forall|j: int| 0 <= j < i ==> (#[trigger] out@[j])@ == entries@[j].0@,
        decreases n - i,
    {
        out.push(entries[i].0.clone());
        i = i + 1;
    }
    proof {
        assert(crate::error::strings_view(out@) =~= object_keys(entries@));
    }
    out
}

/// Renders a printable value as primitive text appended to `output`: null
/// emits nothing, booleans and numbers their decimal form, strings their raw
/// content; an array or object is an error and leaves `output` unchanged.
pub fn format(value: &Value, output: &mut String) -> (r: Result<(), crate::error::RenderError>)
    ensures
        match r {
            Ok(_) => is_printable(*value) && final(output)@ == old(output)@ + value_text(*value),
            Err(e) => !is_printable(*value) && e@ == crate::error::RenderErrorModel::Unprintable
                && final(output)@ == old(output)@,
        },
{
    match value {
        Value::Null => {
            proof {
                assert(old(output)@ + Seq::<char>::empty() =~= old(output)@);
            }
            Ok(())
        },
        Value::Bool(b) => {
            if *b {
                output.append("true");
            } else {
                output.append("false");
            }
            Ok(())
        },
        Value::Int(i) => {
            append_i64_dec(output, *i);
            Ok(())
        },
        Value::Str(s) => {
            output.append(s.as_str());
            Ok(())
        },
        Value::Array(_) => Err(crate::error::RenderError::Unprintable),
        Value::Object(_) => Err(crate::error::RenderError::Unprintable),
    }
}

} // verus!
