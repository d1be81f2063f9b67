//! The tagged value that crosses the host boundary.
use vstd::prelude::*;

verus! {

/// A value at the host boundary. A float travels as its IEEE-754 bit
/// pattern and an opaque box as its cell handle.
pub enum Value {
    Nil,
    I64(i64),
    /// the `f64`'s bits
    F64(u64),
    Bool(bool),
    Str(String),
    Bytes(Vec<u8>),
    /// an opaque box's cell handle
    Opaque(u64),
    /// a tuple crossing: records with numeric fields
    Tuple(Vec<Value>),
}

impl Value {
    /// What a value is, in words, for boundary diagnostics.
    pub fn kind_name(&self) -> (n: &'static str)
        ensures
            n@ == value_kind_text(*self),
    {
        match self {
            Value::Nil => "nil",
            Value::I64(_) => "an integer",
            Value::F64(_) => "a float",
            Value::Bool(_) => "a bool",
            Value::Str(_) => "a string",
            Value::Bytes(_) => "bytes",
            Value::Opaque(_) => "an opaque",
            Value::Tuple(_) => "a tuple",
        }
    }
}

/// The words for each kind of value.
pub open spec fn value_kind_text(v: Value) -> Seq<char> {
    match v {
        Value::Nil => "nil"@,
        Value::I64(_) => "an integer"@,
        Value::F64(_) => "a float"@,
        Value::Bool(_) => "a bool"@,
        Value::Str(_) => "a string"@,
        Value::Bytes(_) => "bytes"@,
        Value::Opaque(_) => "an opaque"@,
        Value::Tuple(_) => "a tuple"@,
    }
}

/// The entry-err convention: a pair whose second component is a
/// non-empty `str` carries that text as the returned error; every other
/// shape (nil, a non-pair, a non-str second, the empty success err)
/// carries none.
pub open spec fn entry_err(v: Value) -> Option<Seq<char>> {
    match v {
        Value::Tuple(parts) => if parts@.len() == 2 {
            match parts@[1] {
                Value::Str(e) => if e@.len() > 0 {
                    Some(e@)
                } else {
                    None
                },
                _ => None,
            }
        } else {
            None
        },
        _ => None,
    }
}

/// Reads the entry-err convention off a returned value.
pub fn err_of_value(v: &Value) -> (r: Option<String>)
    ensures
        match r {
            Some(e) => entry_err(*v) == Some(e@),
            None => entry_err(*v) is None,
        },
{
    if let Value::Tuple(parts) = v {
        if parts.len() == 2 {
            if let Value::Str(e) = &parts[1] {
                if !e.as_str().is_empty() {
                    return Some(e.clone());
                }
            }
        }
    }
    None
}

} // verus!
