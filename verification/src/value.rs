use crate::chunk::Chunk;
use crate::decimal::{decimal_rounds_to_zero, rounds_to_zero};
use crate::text::{join_texts, joined, push_char, sort_texts, texts_sorted};
use std::collections::HashMap;
use std::rc::Rc;
use vstd::prelude::*;
use vstd::string::StringSliceAdditionalSpecFns;
use vstd::utf8::encode_utf8;

verus! {

/// A runtime value. A float is kept as the text of its literal (digits and one dot),
/// as the lexer read it.
#[derive(Debug)]
pub enum Value {
    Nil,
    Bool(bool),
    Int(i64),
    Float(String),
    Str(Rc<String>),
    List(Rc<Vec<Value>>),
    Dict(Rc<HashMap<String, Value>>),
    /// A compiled function: its parameter names + the chunk to execute.
    Function { name: Rc<String>, params: Rc<Vec<String>>, chunk: Rc<Chunk> },
    /// A task is like a function but invokable from the CLI.
    Task { name: Rc<String>, chunk: Rc<Chunk> },
    /// A system module: a flat map of field name -> value, filled in at run time.
    Module(Rc<HashMap<String, Value>>),
}

/// Truthiness: nil, false, 0, a float whose value rounds to zero as a double, and "" are
/// falsy; everything else, every list and map included, is truthy.
pub open spec fn truthy(v: &Value) -> bool {
    match v {
        Value::Nil => false,
        Value::Bool(b) => *b,
        Value::Int(n) => *n != 0,
        Value::Float(t) => !rounds_to_zero(encode_utf8(t@)),
        Value::Str(s) => s@.len() != 0,
        _ => true,
    }
}

impl Value {
    pub fn str(s: &str) -> (r: Value)
        ensures
            r matches Value::Str(x) && x@ == s@,
    {
        Value::Str(Rc::new(s.to_owned()))
    }

    pub fn list(v: Vec<Value>) -> (r: Value)
        ensures
            r matches Value::List(l) && l@ == v@,
    {
        Value::List(Rc::new(v))
    }

    pub fn map(m: HashMap<String, Value>) -> (r: Value)
        ensures
            r matches Value::Dict(x) && x@ == m@,
    {
        Value::Dict(Rc::new(m))
    }

    /// PSH truthiness (see `truthy`).
    pub fn is_truthy(&self) -> (r: bool)
        ensures
            r == truthy(self),
    {
        match self {
            Value::Nil => false,
            Value::Bool(b) => *b,
            Value::Int(n) => *n != 0,
            Value::Float(t) => !decimal_rounds_to_zero(t.as_str().as_bytes()),
            Value::Str(s) => !s.as_str().is_empty(),
            _ => true,
        }
    }

    /// Type name for error messages.
    pub fn kind_name(&self) -> (r: &'static str)
        ensures
            r == match self {
                Value::Nil => "nil",
                Value::Bool(_) => "bool",
                Value::Int(_) => "int",
                Value::Float(_) => "float",
                Value::Str(_) => "string",
                Value::List(_) => "list",
                Value::Dict(_) => "map",
                Value::Function { .. } => "function",
                Value::Task { .. } => "task",
                Value::Module(_) => "module",
            },
    {
        match self {
            Value::Nil => "nil",
            Value::Bool(_) => "bool",
            Value::Int(_) => "int",
            Value::Float(_) => "float",
            Value::Str(_) => "string",
            Value::List(_) => "list",
            Value::Dict(_) => "map",
            Value::Function { .. } => "function",
            Value::Task { .. } => "task",
            Value::Module(_) => "module",
        }
    }
}

/// A list as shown, from the texts of its items: `[a, b, c]`.
pub fn list_text(items: &Vec<String>) -> (r: String)
    ensures
        r@ == seq!['['] + joined(items@.map_values(|t: String| t@), ", "@) + seq![']'],
{
    let mut r = String::new();
    push_char(&mut r, '[');
    let body = join_texts(items, ", ");
    r.append(body.as_str());
    push_char(&mut r, ']');
    proof {
        assert(r@ =~= seq!['['] + joined(items@.map_values(|t: String| t@), ", "@) + seq![']']);
    }
    r
}

/// A map as shown, from the texts of its entries (`key: value`): they come in the order of
/// their bytes, whatever order they were given in, as `{a: 1, b: 2}`.
pub fn map_text(entries: Vec<String>) -> (r: String)
    ensures
        exists|t: Seq<String>|
            #![trigger texts_sorted(t)]
            t.to_multiset() == entries@.to_multiset() && texts_sorted(t) && r@ == seq!['{']
                + joined(t.map_values(|s: String| s@), ", "@) + seq!['}'],
{
    let sorted = sort_texts(entries);
    let mut r = String::new();
    push_char(&mut r, '{');
    let body = join_texts(&sorted, ", ");
    r.append(body.as_str());
    push_char(&mut r, '}');
    proof {
        assert(r@ =~= seq!['{'] + joined(sorted@.map_values(|s: String| s@), ", "@) + seq!['}']);
        assert(texts_sorted(sorted@));
    }
    r
}

} // verus!
